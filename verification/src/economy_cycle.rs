use vstd::prelude::*;

use crate::arith::trunc_div;
use crate::economy::{base_price_spec, gini_fits, gini_fits_check, CommodityMarket, Markets, gini_basis_points, gini_spec, indexed_price_spec, price_change_spec, GoodPriceStatistics, TownEconomicStatistics, Inventory, clamp_spec, consumer_price_index_spec, Good, Money, TownEconomy, MAX_PRICE_INDEX, MIN_PRICE_INDEX, PRICE_INDEX_BASE};
use crate::id::NpcId;
use crate::ledger::{
    cash_total, lemma_cash_bound, lemma_cash_update, lemma_treasury_bound, lemma_treasury_update, transfer_refusal,
    treasury_total, world_money,
};
use crate::npc::{Npc, NpcState};
use crate::statistics::YearStatistics;
use crate::utility::Action;
use crate::arith::{saturating_mul_spec, saturating_mul_u64};
use crate::town::{min_u8, Town};
use crate::world::town_at;
use crate::event::DeathCause;
use crate::society::{affected_family, family_list, in_family_of, lemma_sorted_ids_equal};
use crate::sorted_ids::npc_ids_sorted;
use crate::world::{npc_at, resident_in, World};
use crate::extensions::EconomyExtension;

verus! {

/// `after` differs from `before` at most in the NPCs' cash and the towns' economies.
pub open spec fn only_money_moved(before: World, after: World) -> bool {
    &&& after.npcs@.len() == before.npcs@.len()
    &&& forall|i: int|
        0 <= i < before.npcs@.len() ==> #[trigger] after.npcs@[i] == (Npc {
            money_cents: after.npcs@[i].money_cents,
            ..before.npcs@[i]
        })
    &&& after.towns@.len() == before.towns@.len()
    &&& forall|u: int|
        0 <= u < before.towns@.len() ==> #[trigger] after.towns@[u] == (Town {
            economy: after.towns@[u].economy,
            ..before.towns@[u]
        })
    &&& after == (World { npcs: after.npcs, towns: after.towns, ..before })
}

/// An NPC of working age, 18 to 69.
pub open spec fn working_age(npcs: Seq<Npc>) -> spec_fn(NpcId) -> bool {
    |id: NpcId| npc_at(npcs, id) && 18 <= npcs[id.0 as int].age <= 69
}

/// The residents of the town at index `town`, in the order of the active list.
pub open spec fn town_residents(world: World, town: int) -> Seq<NpcId> {
    world.active_npcs@.filter(resident_in(world.npcs@, town))
}

/// The share of the labour force a town employs, in basis points: 35% and 7% for each
/// point of jobs, at most 98%.
pub open spec fn employment_rate_spec(jobs: u8) -> int {
    if 3_500 + jobs * 700 < 9_800 {
        3_500 + jobs * 700
    } else {
        9_800
    }
}

/// How many of a labour force are employed: the rate's share, at least one where there
/// are jobs, at most everyone.
pub open spec fn employed_spec(labor: int, jobs: u8) -> int {
    if labor == 0 {
        0
    } else {
        let share = labor * employment_rate_spec(jobs) / 10_000;
        let raised = if jobs > 0 && share < 1 {
            1
        } else {
            share
        };
        if raised < labor {
            raised
        } else {
            labor
        }
    }
}

/// A town's productivity after a month: three points per point of education above five
/// (or below it), within `5_000..=20_000`.
pub open spec fn productivity_after(town: Town) -> int {
    clamp_spec(town.economy.productivity_index + (min_u8(town.education, 10) - 5) * 3, 5_000, 20_000)
}

/// What the employed of a town produce of a good in a month.
pub open spec fn local_supply_spec(town: Town, good: Good, employed: int) -> int {
    let safety = town.effective_safety_spec() as int;
    let education = min_u8(town.education, 10) as int;
    let jobs = town.effective_jobs_spec() as int;
    let wealth = min_u8(town.wealth, 10) as int;
    match good {
        Good::Food => employed * 8 * (safety + 10) / 15,
        Good::Clothing => employed * 2 / 3,
        Good::Medicine => employed * (education + 3) / 30,
        Good::Tools => employed * (jobs + 3) / 30,
        Good::Luxury => employed * (wealth + 2) / 40,
    }
}

/// What reaches a town from outside: a share of the demand that grows with its roads, 30%
/// and 5% a road, at most 50%, rounded up.
pub open spec fn import_supply_spec(demand: int, roads: int) -> int {
    if demand == 0 {
        0
    } else {
        let access = if 3_000 + roads * 500 < 5_000 {
            3_000 + roads * 500
        } else {
            5_000
        };
        (demand * access + 9_999) / 10_000
    }
}

/// How strongly a good's price answers a gap between demand and supply, in percent.
pub open spec fn sensitivity_spec(good: Good) -> int {
    match good {
        Good::Food | Good::Medicine => 125,
        Good::Clothing | Good::Tools => 100,
        Good::Luxury => 75,
    }
}

/// The supply lost to a town's damage, in basis points.
pub open spec fn crisis_shock_spec(good: Good, jobs_loss: u8, safety_loss: u8) -> int {
    match good {
        Good::Food => -(jobs_loss * 400 + safety_loss * 500),
        Good::Clothing => -(jobs_loss * 300),
        Good::Medicine => -(jobs_loss * 250),
        Good::Tools => -(jobs_loss * 500),
        Good::Luxury => -(jobs_loss * 350 + safety_loss * 250),
    }
}

/// A good's supply in a town for the month: local production and imports, scaled by the
/// productivity, the good's price and its supply shocks; at least one when anything is
/// supplied.
pub open spec fn supply_spec(town: Town, good: Good, demand: int, employed: int, productivity: int) -> int {
    let market = town.economy.markets.market(good);
    let base = local_supply_spec(town, good, employed) + import_supply_spec(demand, town.neighbors@.len() as int);
    let factor = clamp_spec(
        10_000 + market.annual_supply_shock_basis_points + crisis_shock_spec(
            good,
            town.temporary_damage.jobs_loss,
            town.temporary_damage.safety_loss,
        ),
        4_000,
        16_000,
    );
    if base == 0 {
        0
    } else {
        let scaled = base * productivity * market.price_index * factor / 1_000_000_000_000;
        if scaled < 1 {
            1
        } else {
            scaled
        }
    }
}

/// A price's change for the month, in basis points: without demand, one percent back
/// toward the base index; otherwise the gap between demand and supply times the
/// adjustment and the good's sensitivity, within `-200..=300`.
pub open spec fn monthly_change_spec(price: u32, demand: int, supply: int, adjustment_bps: u32, good: Good) -> int {
    if demand == 0 {
        if price > PRICE_INDEX_BASE {
            -100
        } else if price < PRICE_INDEX_BASE {
            100
        } else {
            0
        }
    } else {
        let gap = if supply == 0 {
            15_000
        } else {
            clamp_spec(trunc_div((demand - supply) * 10_000, supply), -10_000, 30_000)
        };
        clamp_spec(trunc_div(trunc_div(gap * adjustment_bps * sensitivity_spec(good), 100), 10_000), -200, 300)
    }
}

/// A price index after a change in basis points, within `MIN_PRICE_INDEX..=MAX_PRICE_INDEX`.
pub open spec fn price_after(price: u32, change: int) -> int {
    clamp_spec(price + trunc_div(price * change, 10_000), MIN_PRICE_INDEX as int, MAX_PRICE_INDEX as int)
}

/// The price index of a good in a town after a month with the given demand.
pub open spec fn next_price_spec(
    town: Town,
    good: Good,
    demand: int,
    employed: int,
    productivity: int,
    adjustment_bps: u32,
) -> int {
    let price = town.economy.markets.market(good).price_index;
    price_after(
        price,
        monthly_change_spec(price, demand, supply_spec(town, good, demand, employed, productivity), adjustment_bps, good),
    )
}

fn clamp_i128(value: i128, lo: i128, hi: i128) -> (clamped: i128)
    requires
        lo <= hi,
    ensures
        clamped == clamp_spec(value as int, lo as int, hi as int),
{
    if value < lo {
        lo
    } else if value > hi {
        hi
    } else {
        value
    }
}

fn trunc_div_i128(a: i128, b: i128) -> (quotient: i128)
    requires
        b > 0,
        a > i128::MIN,
    ensures
        quotient == trunc_div(a as int, b as int),
{
    if a >= 0 {
        a / b
    } else {
        -((-a) / b)
    }
}

/// The price index of `good` in `town` after a month with `demand`, `employed` workers and
/// the town's new `productivity`.
fn next_price(
    town: &Town,
    good: Good,
    demand: u64,
    employed: usize,
    productivity: u32,
    adjustment_bps: u32,
) -> (price: u32)
    requires
        demand <= 0x10_0000_0000,
        employed <= u32::MAX,
        productivity <= 20_000,
    ensures
        price == next_price_spec(*town, good, demand as int, employed as int, productivity as int, adjustment_bps),
{
    let market = town.economy.markets.get(good);
    let employed_i: i128 = employed as i128;
    let demand_i: i128 = demand as i128;
    let safety: i128 = town.effective_safety() as i128;
    let education: i128 = town.effective_education() as i128;
    let jobs: i128 = town.effective_jobs() as i128;
    let wealth: i128 = town.effective_wealth() as i128;
    proof {
        assert(employed_i * 8 * (safety + 10) <= 0x100_0000_0000 * 160) by (nonlinear_arith)
            requires
                0 <= employed_i <= 0x1_0000_0000,
                0 <= safety <= 255,
        ;
        assert(employed_i * (education + 3) <= 0x1_0000_0000 * 258) by (nonlinear_arith)
            requires
                0 <= employed_i <= 0x1_0000_0000,
                0 <= education <= 255,
        ;
        assert(employed_i * (jobs + 3) <= 0x1_0000_0000 * 258) by (nonlinear_arith)
            requires
                0 <= employed_i <= 0x1_0000_0000,
                0 <= jobs <= 255,
        ;
        assert(employed_i * (wealth + 2) <= 0x1_0000_0000 * 257) by (nonlinear_arith)
            requires
                0 <= employed_i <= 0x1_0000_0000,
                0 <= wealth <= 255,
        ;
    }
    proof {
        assert(0 <= employed_i * 8 * (safety + 10) / 15 <= 0x1_0000_0000 * 200) by (nonlinear_arith)
            requires
                0 <= employed_i <= 0x1_0000_0000,
                0 <= safety <= 255,
        ;
        assert(0 <= employed_i * (education + 3) / 30 <= 0x1_0000_0000 * 200) by (nonlinear_arith)
            requires
                0 <= employed_i <= 0x1_0000_0000,
                0 <= education <= 255,
        ;
        assert(0 <= employed_i * (jobs + 3) / 30 <= 0x1_0000_0000 * 200) by (nonlinear_arith)
            requires
                0 <= employed_i <= 0x1_0000_0000,
                0 <= jobs <= 255,
        ;
        assert(0 <= employed_i * (wealth + 2) / 40 <= 0x1_0000_0000 * 200) by (nonlinear_arith)
            requires
                0 <= employed_i <= 0x1_0000_0000,
                0 <= wealth <= 255,
        ;
    }
    let local: i128 = match good {
        Good::Food => employed_i * 8 * (safety + 10) / 15,
        Good::Clothing => employed_i * 2 / 3,
        Good::Medicine => employed_i * (education + 3) / 30,
        Good::Tools => employed_i * (jobs + 3) / 30,
        Good::Luxury => employed_i * (wealth + 2) / 40,
    };
    let roads: i128 = town.neighbors.len() as i128;
    let access: i128 = if 3_000 + roads * 500 < 5_000 {
        3_000 + roads * 500
    } else {
        5_000
    };
    proof {
        assert(0 <= demand_i * access <= 0x10_0000_0000 * 5_000) by (nonlinear_arith)
            requires
                0 <= demand_i <= 0x10_0000_0000,
                0 <= access <= 5_000,
        ;
    }
    let import: i128 = if demand_i == 0 {
        0
    } else {
        (demand_i * access + 9_999) / 10_000
    };
    proof {
        assert(0 <= local <= 0x1_0000_0000 * 200);
        assert(import <= demand_i + 1) by (nonlinear_arith)
            requires
                import == (if demand_i == 0 { 0 } else { (demand_i * access + 9_999) / 10_000 }),
                0 <= demand_i,
                0 <= access <= 5_000,
        ;
    }
    let base: i128 = local + import;
    let sensitivity: i128 = match good {
        Good::Food | Good::Medicine => 125,
        Good::Clothing | Good::Tools => 100,
        Good::Luxury => 75,
    };
    let jobs_loss: i128 = town.temporary_damage.jobs_loss as i128;
    let safety_loss: i128 = town.temporary_damage.safety_loss as i128;
    let crisis: i128 = match good {
        Good::Food => -(jobs_loss * 400 + safety_loss * 500),
        Good::Clothing => -(jobs_loss * 300),
        Good::Medicine => -(jobs_loss * 250),
        Good::Tools => -(jobs_loss * 500),
        Good::Luxury => -(jobs_loss * 350 + safety_loss * 250),
    };
    let factor = clamp_i128(10_000 + market.annual_supply_shock_basis_points as i128 + crisis, 4_000, 16_000);
    let price: i128 = market.price_index as i128;
    let productivity_i: i128 = productivity as i128;
    let supply: i128 = if base == 0 {
        0
    } else {
        proof {
            assert(base * productivity_i * price * factor <= 0x1_0000_0000_0000_0000 * 20_000 * 0x1_0000_0000 * 16_000)
                by (nonlinear_arith)
                requires
                    0 <= base <= 0x1_0000_0000_0000_0000,
                    0 <= productivity_i <= 20_000,
                    0 <= price <= 0x1_0000_0000,
                    4_000 <= factor <= 16_000,
            ;
            assert(base * productivity_i <= 0x1_0000_0000_0000_0000 * 20_000) by (nonlinear_arith)
                requires
                    0 <= base <= 0x1_0000_0000_0000_0000,
                    0 <= productivity_i <= 20_000,
            ;
            assert(base * productivity_i * price <= 0x1_0000_0000_0000_0000 * 20_000 * 0x1_0000_0000) by (nonlinear_arith)
                requires
                    0 <= base * productivity_i <= 0x1_0000_0000_0000_0000 * 20_000,
                    0 <= price <= 0x1_0000_0000,
            ;
            assert(0 <= base * productivity_i) by (nonlinear_arith)
                requires
                    0 <= base,
                    0 <= productivity_i,
            ;
            assert(0 <= base * productivity_i * price) by (nonlinear_arith)
                requires
                    0 <= base * productivity_i,
                    0 <= price,
            ;
            assert(0 <= base * productivity_i * price * factor) by (nonlinear_arith)
                requires
                    0 <= base,
                    0 <= productivity_i,
                    0 <= price,
                    0 <= factor,
            ;
        }
        let scaled = base * productivity_i * price * factor / 1_000_000_000_000;
        if scaled < 1 {
            1
        } else {
            scaled
        }
    };
    proof {
        assert(supply <= 0x1_0000_0000_0000_0000 * 20_000 * 0x1_0000_0000 * 16_000 / 1_000_000_000_000 + 1);
    }
    let change: i128 = if demand_i == 0 {
        if price > PRICE_INDEX_BASE as i128 {
            -100
        } else if price < PRICE_INDEX_BASE as i128 {
            100
        } else {
            0
        }
    } else {
        let gap: i128 = if supply == 0 {
            15_000
        } else {
            clamp_i128(trunc_div_i128((demand_i - supply) * 10_000, supply), -10_000, 30_000)
        };
        proof {
            assert(-10_000 * 0x1_0000_0000 * 125 <= gap * (adjustment_bps as i128) * sensitivity <= 30_000 * 0x1_0000_0000 * 125)
                by (nonlinear_arith)
                requires
                    -10_000 <= gap <= 30_000,
                    0 <= adjustment_bps <= 0xFFFF_FFFF,
                    75 <= sensitivity <= 125,
            ;
        }
        let scaled = trunc_div_i128(gap * (adjustment_bps as i128) * sensitivity, 100);
        clamp_i128(trunc_div_i128(scaled, 10_000), -200, 300)
    };
    proof {
        assert(-200 * 0x1_0000_0000 <= price * change <= 300 * 0x1_0000_0000) by (nonlinear_arith)
            requires
                0 <= price <= 0x1_0000_0000,
                -200 <= change <= 300,
        ;
    }
    let next = clamp_i128(price + trunc_div_i128(price * change, 10_000), MIN_PRICE_INDEX as i128, MAX_PRICE_INDEX as i128);
    next as u32
}

/// Pays `amount` from the treasury of the town at `t` to the NPC `id` and adds `output` to
/// the town's yearly output. No money is made or lost while the world's money fits in a
/// `u64`.
fn pay_from_treasury(world: &mut World, t: usize, id: NpcId, amount: Money, output: Money)
    requires
        t < old(world).towns@.len(),
        npc_at(old(world).npcs@, id),
        amount <= old(world).towns@[t as int].economy.treasury_cents,
    ensures
        final(world).npcs@ == old(world).npcs@.update(
            id.0 as int,
            Npc {
                money_cents: old(world).npcs@[id.0 as int].money_cents.saturating_add(amount),
                ..old(world).npcs@[id.0 as int]
            },
        ),
        final(world).towns@ == old(world).towns@.update(
            t as int,
            Town {
                economy: TownEconomy {
                    treasury_cents: (old(world).towns@[t as int].economy.treasury_cents - amount) as u64,
                    annual_output_cents: old(world).towns@[t as int].economy.annual_output_cents.saturating_add(output),
                    ..old(world).towns@[t as int].economy
                },
                ..old(world).towns@[t as int]
            },
        ),
        *final(world) == (World { npcs: final(world).npcs, towns: final(world).towns, ..*old(world) }),
        world_money(*old(world)) <= u64::MAX ==> world_money(*final(world)) == world_money(*old(world)),
{
    let ghost before = *world;
    let town = &mut world.towns[t];
    town.economy.treasury_cents = town.economy.treasury_cents - amount;
    town.economy.annual_output_cents = town.economy.annual_output_cents.saturating_add(output);
    let ghost middle = *world;
    match world.npc_mut(id) {
        Some(npc) => {
            npc.money_cents = npc.money_cents.saturating_add(amount);
        },
        None => {},
    }
    proof {
        lemma_treasury_update(before.towns@, t as int, middle.towns@[t as int]);
        lemma_cash_update(before.npcs@, id.0 as int, world.npcs@[id.0 as int]);
        if world_money(before) <= u64::MAX {
            lemma_cash_bound(before.npcs@, id.0 as int, id.0 as int);
            lemma_treasury_bound(before.towns@, t as int);
            crate::ledger::lemma_cash_nonnegative(before.npcs@);
            crate::ledger::lemma_treasury_nonnegative(before.towns@);
        }
    }
}

/// Pays `amount` of the NPC `id`'s cash into the treasury of the town at `t`. No money is
/// made or lost while the world's money fits in a `u64`.
fn pay_to_treasury(world: &mut World, t: usize, id: NpcId, amount: Money)
    requires
        t < old(world).towns@.len(),
        npc_at(old(world).npcs@, id),
        amount <= old(world).npcs@[id.0 as int].money_cents,
    ensures
        final(world).npcs@ == old(world).npcs@.update(
            id.0 as int,
            Npc { money_cents: (old(world).npcs@[id.0 as int].money_cents - amount) as u64, ..old(world).npcs@[id.0 as int] },
        ),
        final(world).towns@ == old(world).towns@.update(
            t as int,
            Town {
                economy: TownEconomy {
                    treasury_cents: old(world).towns@[t as int].economy.treasury_cents.saturating_add(amount),
                    ..old(world).towns@[t as int].economy
                },
                ..old(world).towns@[t as int]
            },
        ),
        *final(world) == (World { npcs: final(world).npcs, towns: final(world).towns, ..*old(world) }),
        world_money(*old(world)) <= u64::MAX ==> world_money(*final(world)) == world_money(*old(world)),
{
    let ghost before = *world;
    match world.npc_mut(id) {
        Some(npc) => {
            npc.money_cents = npc.money_cents - amount;
        },
        None => {},
    }
    let ghost middle = *world;
    let town = &mut world.towns[t];
    town.economy.treasury_cents = town.economy.treasury_cents.saturating_add(amount);
    proof {
        lemma_cash_update(before.npcs@, id.0 as int, middle.npcs@[id.0 as int]);
        lemma_treasury_update(before.towns@, t as int, world.towns@[t as int]);
        if world_money(before) <= u64::MAX {
            lemma_cash_bound(before.npcs@, id.0 as int, id.0 as int);
            lemma_treasury_bound(before.towns@, t as int);
            crate::ledger::lemma_cash_nonnegative(before.npcs@);
            crate::ledger::lemma_treasury_nonnegative(before.towns@);
        }
    }
}

/// The price indices, supply shocks, productivity and employment of an economy are those
/// of `before`.
pub open spec fn prices_held(before: TownEconomy, after: TownEconomy) -> bool {
    &&& forall|good: Good|
        #[trigger] after.markets.market(good).price_index == before.markets.market(good).price_index
            && after.markets.market(good).annual_supply_shock_basis_points
            == before.markets.market(good).annual_supply_shock_basis_points
    &&& after.productivity_index == before.productivity_index
    &&& after.price_index == before.price_index
    &&& after.labor_force == before.labor_force
    &&& after.employed == before.employed
}

/// One step of a town's month: only cash and economies change, no other town, not the
/// town's prices, and no money is made or lost while the world's money fits in a `u64`.
pub open spec fn month_step(before: World, after: World, t: int) -> bool {
    &&& only_money_moved(before, after)
    &&& forall|u: int| 0 <= u < before.towns@.len() && u != t ==> #[trigger] after.towns@[u] == before.towns@[u]
    &&& prices_held(before.towns@[t].economy, after.towns@[t].economy)
    &&& world_money(before) <= u64::MAX ==> world_money(after) == world_money(before)
}

proof fn lemma_month_step_chain(first: World, second: World, third: World, t: int)
    requires
        0 <= t < first.towns@.len(),
        month_step(first, second, t),
        month_step(second, third, t),
    ensures
        month_step(first, third, t),
{
    assert forall|i: int| 0 <= i < first.npcs@.len() implies #[trigger] third.npcs@[i] == (Npc {
        money_cents: third.npcs@[i].money_cents,
        ..first.npcs@[i]
    }) by {
        assert(second.npcs@[i] == (Npc { money_cents: second.npcs@[i].money_cents, ..first.npcs@[i] }));
        assert(third.npcs@[i] == (Npc { money_cents: third.npcs@[i].money_cents, ..second.npcs@[i] }));
    }
    assert forall|u: int| 0 <= u < first.towns@.len() implies #[trigger] third.towns@[u] == (Town {
        economy: third.towns@[u].economy,
        ..first.towns@[u]
    }) by {
        assert(second.towns@[u] == (Town { economy: second.towns@[u].economy, ..first.towns@[u] }));
        assert(third.towns@[u] == (Town { economy: third.towns@[u].economy, ..second.towns@[u] }));
    }
    assert forall|u: int| 0 <= u < first.towns@.len() && u != t implies #[trigger] third.towns@[u] == first.towns@[u] by {
        assert(second.towns@[u] == first.towns@[u]);
        assert(third.towns@[u] == second.towns@[u]);
    }
    assert forall|good: Good| #[trigger] third.towns@[t].economy.markets.market(good).price_index
        == first.towns@[t].economy.markets.market(good).price_index
        && third.towns@[t].economy.markets.market(good).annual_supply_shock_basis_points
        == first.towns@[t].economy.markets.market(good).annual_supply_shock_basis_points by {
        assert(second.towns@[t].economy.markets.market(good).price_index
            == first.towns@[t].economy.markets.market(good).price_index);
        assert(third.towns@[t].economy.markets.market(good).price_index
            == second.towns@[t].economy.markets.market(good).price_index);
    }
}

/// The NPCs with the cash of the one at index `i` set to `cash`.
pub open spec fn with_cash(npcs: Seq<Npc>, i: int, cash: u64) -> Seq<Npc> {
    npcs.update(i, Npc { money_cents: cash, ..npcs[i] })
}

/// The gross monthly wage of an NPC: the base wage at 85% plus one percent per point of
/// intelligence, dexterity and charisma, indexed to the town's consumer prices.
pub open spec fn gross_wage_spec(npc: Npc, wage_cents: u64, price_index: u32) -> u64 {
    let skill = (npc.attributes.intelligence + npc.attributes.dexterity + npc.attributes.charisma) * 100;
    let real_wage = saturating_mul_spec(wage_cents, (8_500 + skill) as u64) / 10_000;
    saturating_mul_spec(real_wage, price_index as u64) / 10_000
}

/// A wage net of income tax at `tax_bps` basis points (all of it from 10_000 on).
pub open spec fn net_wage_spec(gross: u64, tax_bps: u32) -> u64 {
    let kept: u64 = if tax_bps < 10_000 {
        (10_000 - tax_bps) as u64
    } else {
        0
    };
    saturating_mul_spec(gross, kept) / 10_000
}

/// The books (every NPC, and one town's economy) after the NPC `id` is paid its wage: the
/// net wage, as far as the treasury goes, moves from the treasury to the NPC, and the
/// gross wage counts toward the town's output.
pub open spec fn wage_paid(
    books: (Seq<Npc>, TownEconomy),
    id: NpcId,
    wage_cents: u64,
    tax_bps: u32,
    price_index: u32,
) -> (Seq<Npc>, TownEconomy) {
    let npcs = books.0;
    let economy = books.1;
    let gross = gross_wage_spec(npcs[id.0 as int], wage_cents, price_index);
    let net = net_wage_spec(gross, tax_bps);
    let payment = if net < economy.treasury_cents {
        net
    } else {
        economy.treasury_cents
    };
    (
        with_cash(npcs, id.0 as int, npcs[id.0 as int].money_cents.saturating_add(payment)),
        TownEconomy {
            treasury_cents: (economy.treasury_cents - payment) as u64,
            annual_output_cents: economy.annual_output_cents.saturating_add(gross),
            ..economy
        },
    )
}

/// The books after each of `payees` is paid its wage in turn.
pub open spec fn wages_paid(
    books: (Seq<Npc>, TownEconomy),
    payees: Seq<NpcId>,
    wage_cents: u64,
    tax_bps: u32,
    price_index: u32,
) -> (Seq<Npc>, TownEconomy)
    decreases payees.len(),
{
    if payees.len() == 0 {
        books
    } else {
        wage_paid(wages_paid(books, payees.drop_last(), wage_cents, tax_bps, price_index), payees.last(), wage_cents, tax_bps, price_index)
    }
}

/// An NPC of the world that is active and holds more than `threshold`.
pub open spec fn able_to_support(npcs: Seq<Npc>, id: NpcId, threshold: u64) -> bool {
    npc_at(npcs, id) && npcs[id.0 as int].active() && npcs[id.0 as int].money_cents > threshold
}

/// The first of the parents from index `p` on that is able to support.
pub open spec fn supporting_parent(npcs: Seq<Npc>, parents: Seq<NpcId>, threshold: u64, p: int) -> Option<NpcId>
    decreases parents.len() - p,
{
    if p < 0 || p >= parents.len() {
        None
    } else if able_to_support(npcs, parents[p], threshold) {
        Some(parents[p])
    } else {
        supporting_parent(npcs, parents, threshold, p + 1)
    }
}

/// Who supports an NPC: its partner if able, else its first able parent.
pub open spec fn supporter(npcs: Seq<Npc>, npc: Npc, threshold: u64) -> Option<NpcId> {
    if npc.partner is Some && able_to_support(npcs, npc.partner->0, threshold) {
        npc.partner
    } else {
        supporting_parent(npcs, npc.parents@, threshold, 0)
    }
}

/// The support transfer for a resident short of the living cost: from its supporter (able
/// above three times the living cost), the shortfall as far as the supporter keeps twice
/// the living cost; none when that is nothing.
pub open spec fn support_for(npcs: Seq<Npc>, recipient: NpcId, living_cost: u64) -> Option<(NpcId, NpcId, u64)> {
    if npc_at(npcs, recipient) && npcs[recipient.0 as int].money_cents < living_cost {
        match supporter(npcs, npcs[recipient.0 as int], saturating_mul_spec(living_cost, 3)) {
            Some(giver) => {
                let available = npcs[giver.0 as int].money_cents.saturating_sub(saturating_mul_spec(living_cost, 2));
                let shortfall = (living_cost - npcs[recipient.0 as int].money_cents) as u64;
                let amount = if shortfall < available {
                    shortfall
                } else {
                    available
                };
                if amount > 0 {
                    Some((giver, recipient, amount))
                } else {
                    None
                }
            },
            None => None,
        }
    } else {
        None
    }
}

/// The support transfers of a town's month, resident by resident.
pub open spec fn support_plan_spec(npcs: Seq<Npc>, residents: Seq<NpcId>, living_cost: u64) -> Seq<(NpcId, NpcId, u64)>
    decreases residents.len(),
{
    if residents.len() == 0 {
        Seq::empty()
    } else {
        let earlier = support_plan_spec(npcs, residents.drop_last(), living_cost);
        match support_for(npcs, residents.last(), living_cost) {
            Some(transfer) => earlier.push(transfer),
            None => earlier,
        }
    }
}

/// The books after one support transfer: a transfer that is not refused moves the money
/// and is counted by the town; a refused one changes nothing.
pub open spec fn transfer_done(books: (Seq<Npc>, TownEconomy), transfer: (NpcId, NpcId, u64)) -> (Seq<Npc>, TownEconomy) {
    let npcs = books.0;
    let from = transfer.0;
    let to = transfer.1;
    let amount = transfer.2;
    if transfer_refusal(npcs, from, to, amount) is None {
        let paid = with_cash(npcs, from.0 as int, (npcs[from.0 as int].money_cents - amount) as u64);
        (
            with_cash(paid, to.0 as int, (npcs[to.0 as int].money_cents + amount) as u64),
            TownEconomy { annual_transfers: books.1.annual_transfers.saturating_add(1), ..books.1 },
        )
    } else {
        books
    }
}

/// The books after the transfers, in turn.
pub open spec fn transfers_done(books: (Seq<Npc>, TownEconomy), plan: Seq<(NpcId, NpcId, u64)>) -> (Seq<Npc>, TownEconomy)
    decreases plan.len(),
{
    if plan.len() == 0 {
        books
    } else {
        transfer_done(transfers_done(books, plan.drop_last()), plan.last())
    }
}

/// What an NPC wants to buy in a month, per good in good order: food every month (three
/// units for children, five otherwise), clothing every third month, medicine twice when
/// sick or every sixth month, tools now and then for adults, luxury now and then for
/// adults with more than four times the living cost.
pub open spec fn wanted_spec(npc: Npc, month: u8, living_cost: u64) -> (u32, u32, u32, u32, u32) {
    let key = npc.id.0.saturating_add(month as u32);
    let food: u32 = if npc.age < 16 {
        3
    } else {
        5
    };
    let clothing: u32 = if key % 3 == 0 {
        1
    } else {
        0
    };
    let medicine: u32 = match npc.state {
        NpcState::Sick => 2,
        _ => if key % 6 == 0 {
            1
        } else {
            0
        },
    };
    let tools: u32 = if npc.adult() && key % 6 == 1 {
        1
    } else {
        0
    };
    let luxury: u32 = if npc.adult() && npc.money_cents > saturating_mul_spec(living_cost, 4) && key % 4 == 2 {
        1
    } else {
        0
    };
    (food, clothing, medicine, tools, luxury)
}

/// The quantity of one good in a wish list.
pub open spec fn wanted_of(wanted: (u32, u32, u32, u32, u32), good: Good) -> u32 {
    match good {
        Good::Food => wanted.0,
        Good::Clothing => wanted.1,
        Good::Medicine => wanted.2,
        Good::Tools => wanted.3,
        Good::Luxury => wanted.4,
    }
}

/// The books after the NPC `id` buys up to `desired` units of `good` at the town's unit
/// price, as many as its cash pays for: the money goes to the treasury and the trade is
/// recorded; nothing happens when it buys none.
pub open spec fn bought(books: (Seq<Npc>, TownEconomy), id: NpcId, good: Good, desired: u32) -> (Seq<Npc>, TownEconomy) {
    let npcs = books.0;
    let economy = books.1;
    let price = indexed_price_spec(base_price_spec(good), economy.markets.market(good).price_index) as u64;
    let available = npcs[id.0 as int].money_cents;
    let affordable: u32 = if price == 0 {
        desired
    } else if available / price < desired {
        (available / price) as u32
    } else {
        desired
    };
    if desired == 0 || affordable == 0 {
        books
    } else {
        let payment = saturating_mul_spec(price, affordable as u64);
        (
            with_cash(npcs, id.0 as int, (available - payment) as u64),
            TownEconomy { treasury_cents: economy.treasury_cents.saturating_add(payment), ..economy }.traded(
                good,
                affordable as u64,
                payment,
            ),
        )
    }
}

/// The books after an NPC buys what it wants, good by good.
pub open spec fn resident_bought(books: (Seq<Npc>, TownEconomy), id: NpcId, wanted: (u32, u32, u32, u32, u32)) -> (
    Seq<Npc>,
    TownEconomy,
) {
    let food = bought(books, id, Good::Food, wanted.0);
    let clothing = bought(food, id, Good::Clothing, wanted.1);
    let medicine = bought(clothing, id, Good::Medicine, wanted.2);
    let tools = bought(medicine, id, Good::Tools, wanted.3);
    bought(tools, id, Good::Luxury, wanted.4)
}

/// The books after the residents shop in turn, each for what it wants when its turn comes.
pub open spec fn purchases(books: (Seq<Npc>, TownEconomy), residents: Seq<NpcId>, month: u8, living_cost: u64) -> (
    Seq<Npc>,
    TownEconomy,
)
    decreases residents.len(),
{
    if residents.len() == 0 {
        books
    } else {
        let earlier = purchases(books, residents.drop_last(), month, living_cost);
        let id = residents.last();
        resident_bought(earlier, id, wanted_spec(earlier.0[id.0 as int], month, living_cost))
    }
}

/// The month's demand for a good: what the residents want of it, bought or not.
pub open spec fn demand_spec(books: (Seq<Npc>, TownEconomy), residents: Seq<NpcId>, month: u8, living_cost: u64, good: Good) -> int
    decreases residents.len(),
{
    if residents.len() == 0 {
        0
    } else {
        let earlier = purchases(books, residents.drop_last(), month, living_cost);
        let id = residents.last();
        demand_spec(books, residents.drop_last(), month, living_cost, good) + wanted_of(
            wanted_spec(earlier.0[id.0 as int], month, living_cost),
            good,
        )
    }
}

/// A good's market with its price index stepped for the month's demand.
pub open spec fn priced_market(
    market: CommodityMarket,
    town: Town,
    good: Good,
    demand: int,
    employed: int,
    productivity: int,
    adjustment_bps: u32,
) -> CommodityMarket {
    CommodityMarket {
        price_index: next_price_spec(town, good, demand, employed, productivity, adjustment_bps) as u32,
        ..market
    }
}

/// A town's economy closing its month: the new productivity, every good's price index
/// stepped for its demand, and the consumer price index recomputed from them.
pub open spec fn month_closed(
    economy: TownEconomy,
    town: Town,
    demand: spec_fn(Good) -> int,
    employed: int,
    productivity: int,
    adjustment_bps: u32,
) -> TownEconomy {
    let markets = Markets {
        food: priced_market(economy.markets.food, town, Good::Food, demand(Good::Food), employed, productivity, adjustment_bps),
        clothing: priced_market(economy.markets.clothing, town, Good::Clothing, demand(Good::Clothing), employed, productivity, adjustment_bps),
        medicine: priced_market(economy.markets.medicine, town, Good::Medicine, demand(Good::Medicine), employed, productivity, adjustment_bps),
        tools: priced_market(economy.markets.tools, town, Good::Tools, demand(Good::Tools), employed, productivity, adjustment_bps),
        luxury: priced_market(economy.markets.luxury, town, Good::Luxury, demand(Good::Luxury), employed, productivity, adjustment_bps),
    };
    TownEconomy {
        productivity_index: productivity as u32,
        markets,
        price_index: consumer_price_index_spec(markets) as u32,
        ..economy
    }
}

/// Whether the NPC chose to work this month.
pub open spec fn chose_work_spec(actions: Seq<Option<Action>>, id: NpcId) -> bool {
    id.0 < actions.len() && actions[id.0 as int] == Some(Action::Work)
}

/// Residents of working age who chose to work.
pub open spec fn working_now(npcs: Seq<Npc>, actions: Seq<Option<Action>>) -> spec_fn(NpcId) -> bool {
    |id: NpcId| working_age(npcs)(id) && chose_work_spec(actions, id)
}

/// Residents of working age who did not choose to work.
pub open spec fn idle_now(npcs: Seq<Npc>, actions: Seq<Option<Action>>) -> spec_fn(NpcId) -> bool {
    |id: NpcId| working_age(npcs)(id) && !chose_work_spec(actions, id)
}

/// A town's labour force in the order in which it is employed: those who chose to work,
/// then the others, each group in the residents' order.
pub open spec fn labor_order(npcs: Seq<Npc>, residents: Seq<NpcId>, actions: Seq<Option<Action>>) -> Seq<NpcId> {
    residents.filter(working_now(npcs, actions)) + residents.filter(idle_now(npcs, actions))
}

/// A town employs at most its labour force, at least one person when it has jobs and
/// anyone to employ, and at least the employment rate's share of the labour force (35%
/// and 7% per point of jobs, at most 98%, rounded down); more than that share only the
/// one person a town with jobs always employs.
pub proof fn law_employment(labor: int, jobs: u8)
    requires
        labor >= 0,
    ensures
        0 <= employed_spec(labor, jobs) <= labor,
        labor > 0 && jobs > 0 ==> employed_spec(labor, jobs) >= 1,
        employed_spec(labor, jobs) >= labor * employment_rate_spec(jobs) / 10_000,
        employed_spec(labor, jobs) * 10_000 <= labor * employment_rate_spec(jobs) || employed_spec(labor, jobs) == 1,
{
    let rate = employment_rate_spec(jobs);
    assert(3_500 <= rate <= 9_800);
    assert(0 <= labor * rate / 10_000 <= labor) by (nonlinear_arith)
        requires
            3_500 <= rate <= 9_800,
            labor >= 0,
    ;
    assert((labor * rate / 10_000) * 10_000 <= labor * rate) by (nonlinear_arith)
        requires
            3_500 <= rate <= 9_800,
            labor >= 0,
    ;
}

proof fn lemma_labor_split(npcs: Seq<Npc>, residents: Seq<NpcId>, actions: Seq<Option<Action>>)
    ensures
        residents.filter(working_now(npcs, actions)).len() + residents.filter(idle_now(npcs, actions)).len()
            == residents.filter(working_age(npcs)).len(),
    decreases residents.len(),
{
    if residents.len() > 0 {
        let rest = residents.drop_last();
        let last = residents.last();
        lemma_labor_split(npcs, rest, actions);
        assert(residents =~= rest.push(last));
        rest.lemma_filter_push(last, working_now(npcs, actions));
        rest.lemma_filter_push(last, idle_now(npcs, actions));
        rest.lemma_filter_push(last, working_age(npcs));
    }
}

/// A town employs those of working age who chose to work before any who did not: in the
/// labour order every resident who chose to work comes ahead of every one who did not, and
/// the order holds exactly the residents of working age, each as often as among the
/// residents.
pub proof fn law_workers_employed_first(npcs: Seq<Npc>, residents: Seq<NpcId>, actions: Seq<Option<Action>>)
    ensures
        forall|i: int, j: int|
            0 <= i < j < labor_order(npcs, residents, actions).len() && chose_work_spec(
                actions,
                #[trigger] labor_order(npcs, residents, actions)[j],
            ) ==> chose_work_spec(actions, #[trigger] labor_order(npcs, residents, actions)[i]),
        forall|id: NpcId|
            #[trigger] labor_order(npcs, residents, actions).contains(id) <==> (residents.contains(id) && npc_at(npcs, id)
                && 18 <= npcs[id.0 as int].age <= 69),
        labor_order(npcs, residents, actions).len() == residents.filter(working_age(npcs)).len(),
{
    broadcast use vstd::seq_lib::group_filter_ensures;

    let busy = residents.filter(working_now(npcs, actions));
    let idle = residents.filter(idle_now(npcs, actions));
    let order = labor_order(npcs, residents, actions);
    assert(order == busy + idle);
    lemma_labor_split(npcs, residents, actions);
    assert forall|i: int, j: int|
        0 <= i < j < order.len() && chose_work_spec(actions, #[trigger] order[j]) implies chose_work_spec(
        actions,
        #[trigger] order[i],
    ) by {
        if j < busy.len() {
            assert(order[i] == busy[i]);
            assert(working_now(npcs, actions)(busy[i]));
        } else {
            assert(order[j] == idle[j - busy.len()]);
            assert(idle_now(npcs, actions)(idle[j - busy.len()]));
        }
    }
    assert forall|id: NpcId| #[trigger] order.contains(id) <==> (residents.contains(id) && npc_at(npcs, id) && 18
        <= npcs[id.0 as int].age <= 69) by {
        if order.contains(id) {
            let k = choose|k: int| 0 <= k < order.len() && order[k] == id;
            if k < busy.len() {
                assert(busy.contains(id));
                residents.lemma_filter_contains_rev(working_now(npcs, actions), id);
                assert(working_now(npcs, actions)(busy[k]));
            } else {
                assert(idle[k - busy.len()] == id);
                assert(idle.contains(id));
                residents.lemma_filter_contains_rev(idle_now(npcs, actions), id);
                assert(idle_now(npcs, actions)(idle[k - busy.len()]));
            }
        }
        if residents.contains(id) && npc_at(npcs, id) && 18 <= npcs[id.0 as int].age <= 69 {
            let k = choose|k: int| 0 <= k < residents.len() && residents[k] == id;
            if chose_work_spec(actions, id) {
                assert(working_now(npcs, actions)(residents[k]));
                assert(busy.contains(id));
                let m = choose|m: int| 0 <= m < busy.len() && busy[m] == id;
                assert(order[m] == id);
            } else {
                assert(idle_now(npcs, actions)(residents[k]));
                assert(idle.contains(id));
                let m = choose|m: int| 0 <= m < idle.len() && idle[m] == id;
                assert(order[busy.len() + m] == id);
            }
        }
    }
}

/// The books of a town's month (every NPC, and the town's economy), from the NPCs and the
/// town before it: the labour force counted and employed in its order and paid, support
/// transfers made, purchases made, then productivity, prices for the month's demand and
/// the consumer price index. `terms` are the base wage, the base living cost, the income
/// tax in basis points and the price adjustment rate.
pub open spec fn town_month_books(
    npcs: Seq<Npc>,
    town: Town,
    residents: Seq<NpcId>,
    actions: Seq<Option<Action>>,
    month: u8,
    terms: (u64, u64, u32, u32),
) -> (Seq<Npc>, TownEconomy) {
    let labor = labor_order(npcs, residents, actions);
    let employed = employed_spec(labor.len() as int, town.effective_jobs_spec());
    let opened = TownEconomy { labor_force: labor.len() as usize, employed: employed as usize, ..town.economy };
    let paid = wages_paid((npcs, opened), labor.take(employed), terms.0, terms.2, town.economy.price_index);
    let living_cost = indexed_price_spec(terms.1, town.economy.price_index) as u64;
    let supported = transfers_done(paid, support_plan_spec(paid.0, residents, living_cost));
    let shopped = purchases(supported, residents, month, living_cost);
    (
        shopped.0,
        month_closed(
            shopped.1,
            town,
            |good: Good| demand_spec(supported, residents, month, living_cost, good),
            employed,
            productivity_after(town),
            terms.3,
        ),
    )
}

/// Whether the NPC chose to work this month.
fn chose_work(actions: &Vec<Option<Action>>, id: NpcId) -> (work: bool)
    ensures
        work == chose_work_spec(actions@, id),
{
    let index = id.0 as usize;
    if index < actions.len() {
        match &actions[index] {
            Some(Action::Work) => true,
            _ => false,
        }
    } else {
        false
    }
}

/// A town's labour force: its residents of working age, those who chose to work first,
/// each group in the residents' order.
fn labor_force_of(world: &World, residents: &Vec<NpcId>, actions: &Vec<Option<Action>>) -> (labor: Vec<NpcId>)
    ensures
        labor@ == labor_order(world.npcs@, residents@, actions@),
        labor@.len() == residents@.filter(working_age(world.npcs@)).len(),
        forall|k: int| 0 <= k < labor@.len() ==> npc_at(world.npcs@, #[trigger] labor@[k]),
{
    let ghost pick = working_age(world.npcs@);
    let ghost busy = working_now(world.npcs@, actions@);
    let ghost idle = idle_now(world.npcs@, actions@);
    let mut workers: Vec<NpcId> = Vec::new();
    let mut others: Vec<NpcId> = Vec::new();
    let mut k: usize = 0;
    while k < residents.len()
        invariant
            k <= residents@.len(),
            pick == working_age(world.npcs@),
            busy == working_now(world.npcs@, actions@),
            idle == idle_now(world.npcs@, actions@),
            workers@ == residents@.take(k as int).filter(busy),
            others@ == residents@.take(k as int).filter(idle),
            workers@.len() + others@.len() == residents@.take(k as int).filter(pick).len(),
            forall|i: int| 0 <= i < workers@.len() ==> npc_at(world.npcs@, #[trigger] workers@[i]),
            forall|i: int| 0 <= i < others@.len() ==> npc_at(world.npcs@, #[trigger] others@[i]),
        decreases residents.len() - k,
    {
        let id = residents[k];
        let fits = match world.npc(id) {
            Some(npc) => 18 <= npc.age && npc.age <= 69,
            None => false,
        };
        if fits {
            if chose_work(actions, id) {
                workers.push(id);
            } else {
                others.push(id);
            }
        }
        proof {
            assert(residents@.take(k as int + 1) =~= residents@.take(k as int).push(id));
            residents@.take(k as int).lemma_filter_push(id, pick);
            residents@.take(k as int).lemma_filter_push(id, busy);
            residents@.take(k as int).lemma_filter_push(id, idle);
        }
        k = k + 1;
    }
    proof {
        assert(residents@.take(residents@.len() as int) =~= residents@);
    }
    let mut i: usize = 0;
    let ghost first = workers@;
    while i < others.len()
        invariant
            i <= others@.len(),
            workers@ == first + others@.take(i as int),
            forall|j: int| 0 <= j < workers@.len() ==> npc_at(world.npcs@, #[trigger] workers@[j]),
            forall|j: int| 0 <= j < others@.len() ==> npc_at(world.npcs@, #[trigger] others@[j]),
        decreases others.len() - i,
    {
        proof {
            assert(others@.take(i as int + 1) =~= others@.take(i as int).push(others@[i as int]));
        }
        workers.push(others[i]);
        i = i + 1;
    }
    proof {
        assert(others@.take(others@.len() as int) =~= others@);
    }
    workers
}

fn employed_count(labor: usize, jobs: u8) -> (employed: usize)
    ensures
        employed == employed_spec(labor as int, jobs),
{
    if labor == 0 {
        return 0;
    }
    let rate: u128 = if 3_500 + jobs as u128 * 700 < 9_800 {
        3_500 + jobs as u128 * 700
    } else {
        9_800
    };
    proof {
        assert(labor as int * rate / 10_000 <= labor) by (nonlinear_arith)
            requires
                rate <= 9_800,
                labor >= 0,
        ;
        assert(labor as int * rate <= 0xFFFF_FFFF_FFFF_FFFF * 9_800) by (nonlinear_arith)
            requires
                rate <= 9_800,
                labor <= 0xFFFF_FFFF_FFFF_FFFF,
                labor >= 0,
        ;
    }
    let share: usize = (labor as u128 * rate / 10_000) as usize;
    let raised: usize = if jobs > 0 && share < 1 {
        1
    } else {
        share
    };
    if raised < labor {
        raised
    } else {
        labor
    }
}

/// Pays the NPC `id` its wage for the month from the town's treasury, as far as the
/// treasury goes: the base wage raised by its skills, indexed to the town's prices, less
/// the income tax. The gross wage counts toward the town's output.
fn pay_wage(world: &mut World, t: usize, id: NpcId, wage_cents: Money, tax_bps: u32, price_index: u32)
    requires
        t < old(world).towns@.len(),
        npc_at(old(world).npcs@, id),
    ensures
        month_step(*old(world), *final(world), t as int),
        (final(world).npcs@, final(world).towns@[t as int].economy) == wage_paid(
            (old(world).npcs@, old(world).towns@[t as int].economy),
            id,
            wage_cents,
            tax_bps,
            price_index,
        ),
{
    let skill: u64 = match world.npc(id) {
        Some(npc) => (npc.attributes.intelligence as u64 + npc.attributes.dexterity as u64
            + npc.attributes.charisma as u64) * 100,
        None => 0,
    };
    let real_wage = saturating_mul_u64(wage_cents, 8_500 + skill) / 10_000;
    let gross_wage = saturating_mul_u64(real_wage, price_index as u64) / PRICE_INDEX_BASE as u64;
    let kept_bps: u64 = if (tax_bps as u64) < 10_000 {
        10_000 - tax_bps as u64
    } else {
        0
    };
    let net_wage = saturating_mul_u64(gross_wage, kept_bps) / 10_000;
    let treasury = world.towns[t].economy.treasury_cents;
    let payment = if net_wage < treasury {
        net_wage
    } else {
        treasury
    };
    pay_from_treasury(world, t, id, payment, gross_wage);
}

/// Buys up to `desired` units of `good` for the NPC `id` at the town's price, as many as
/// its cash pays for; the money goes to the town's treasury and the trade is recorded.
fn buy_good(world: &mut World, t: usize, id: NpcId, good: Good, desired: u32)
    requires
        t < old(world).towns@.len(),
        npc_at(old(world).npcs@, id),
    ensures
        month_step(*old(world), *final(world), t as int),
        (final(world).npcs@, final(world).towns@[t as int].economy) == bought(
            (old(world).npcs@, old(world).towns@[t as int].economy),
            id,
            good,
            desired,
        ),
{
    if desired == 0 {
        return;
    }
    let unit_price = world.towns[t].economy.good_price(good);
    let available = match world.npc(id) {
        Some(npc) => npc.money_cents,
        None => 0,
    };
    let affordable: u32 = if unit_price == 0 {
        desired
    } else {
        let quantity = available / unit_price;
        if quantity < desired as u64 {
            quantity as u32
        } else {
            desired
        }
    };
    if affordable == 0 {
        return;
    }
    let payment = saturating_mul_u64(unit_price, affordable as u64);
    proof {
        if unit_price > 0 {
            assert(unit_price * affordable <= available) by (nonlinear_arith)
                requires
                    affordable <= available / unit_price,
                    unit_price > 0,
            ;
        }
    }
    let ghost before = *world;
    pay_to_treasury(world, t, id, payment);
    let ghost middle = *world;
    let town = &mut world.towns[t];
    town.economy.record_good_trade(good, affordable as u64, payment);
    proof {
        crate::ledger::lemma_treasury_update(middle.towns@, t as int, world.towns@[t as int]);
        assert(middle.towns@.update(t as int, world.towns@[t as int]) == world.towns@);
        assert forall|g: Good| #[trigger] world.towns@[t as int].economy.markets.market(g).price_index
            == before.towns@[t as int].economy.markets.market(g).price_index
            && world.towns@[t as int].economy.markets.market(g).annual_supply_shock_basis_points
            == before.towns@[t as int].economy.markets.market(g).annual_supply_shock_basis_points by {
            if g == good {
            } else {
            }
        }
    }
}

/// Carries out one support transfer; a done one is counted by the town.
fn give_support(world: &mut World, t: usize, donor: NpcId, recipient: NpcId, amount: Money)
    requires
        t < old(world).towns@.len(),
    ensures
        month_step(*old(world), *final(world), t as int),
        (final(world).npcs@, final(world).towns@[t as int].economy) == transfer_done(
            (old(world).npcs@, old(world).towns@[t as int].economy),
            (donor, recipient, amount),
        ),
{
    let ghost before = *world;
    match world.transfer_money(donor, recipient, amount) {
        Ok(_) => {
            let ghost middle = *world;
            let town = &mut world.towns[t];
            town.economy.annual_transfers = town.economy.annual_transfers.saturating_add(1);
            proof {
                crate::ledger::lemma_treasury_update(middle.towns@, t as int, world.towns@[t as int]);
                assert(middle.towns@.update(t as int, world.towns@[t as int]) == world.towns@);
            }
        },
        Err(_) => {},
    }
}

/// The support transfers of a town for the month: each resident short of the living cost
/// gets the shortfall from its partner or else the first parent with more than three
/// times the living cost, as far as the giver keeps twice the living cost.
fn support_plan(world: &World, residents: &Vec<NpcId>, living_cost: Money) -> (plan: Vec<(NpcId, NpcId, Money)>)
    ensures
        plan@ == support_plan_spec(world.npcs@, residents@, living_cost),
{
    let mut plan: Vec<(NpcId, NpcId, Money)> = Vec::new();
    let threshold = saturating_mul_u64(living_cost, 3);
    let reserve = saturating_mul_u64(living_cost, 2);
    let mut k: usize = 0;
    while k < residents.len()
        invariant
            k <= residents@.len(),
            threshold == saturating_mul_spec(living_cost, 3),
            reserve == saturating_mul_spec(living_cost, 2),
            plan@ == support_plan_spec(world.npcs@, residents@.take(k as int), living_cost),
        decreases residents.len() - k,
    {
        let recipient = residents[k];
        proof {
            assert(residents@.take(k as int + 1).drop_last() =~= residents@.take(k as int));
            assert(residents@.take(k as int + 1).last() == recipient);
        }
        match world.npc(recipient) {
            Some(npc) => {
                if npc.money_cents < living_cost {
                    let mut donor: Option<NpcId> = None;
                    match npc.partner {
                        Some(partner) => {
                            if can_support(world, partner, threshold) {
                                donor = Some(partner);
                            }
                        },
                        None => {},
                    }
                    let mut p: usize = 0;
                    while p < npc.parents.len() && donor.is_none()
                        invariant
                            p <= npc.parents@.len(),
                            donor is Some ==> donor == supporter(world.npcs@, *npc, threshold),
                            donor matches Some(g) ==> able_to_support(world.npcs@, g, threshold),
                            donor is None ==> supporter(world.npcs@, *npc, threshold) == supporting_parent(
                                world.npcs@,
                                npc.parents@,
                                threshold,
                                p as int,
                            ),
                        decreases npc.parents.len() - p,
                    {
                        if can_support(world, npc.parents[p], threshold) {
                            donor = Some(npc.parents[p]);
                        }
                        p = p + 1;
                    }
                    proof {
                        assert(donor == supporter(world.npcs@, *npc, threshold));
                    }
                    match donor {
                        Some(giver) => {
                            let available = match world.npc(giver) {
                                Some(relative) => relative.money_cents.saturating_sub(reserve),
                                None => 0,
                            };
                            let shortfall = living_cost - npc.money_cents;
                            let amount = if shortfall < available {
                                shortfall
                            } else {
                                available
                            };
                            if amount > 0 {
                                plan.push((giver, recipient, amount));
                            }
                        },
                        None => {},
                    }
                }
            },
            None => {},
        }
        k = k + 1;
    }
    proof {
        assert(residents@.take(residents@.len() as int) =~= residents@);
    }
    plan
}

/// Whether the NPC is active and holds more than `threshold`.
fn can_support(world: &World, id: NpcId, threshold: Money) -> (able: bool)
    ensures
        able == (npc_at(world.npcs@, id) && world.npcs@[id.0 as int].active() && world.npcs@[id.0 as int].money_cents
            > threshold),
{
    match world.npc(id) {
        Some(relative) => relative.is_active() && relative.money_cents > threshold,
        None => false,
    }
}

proof fn lemma_only_money_moved_chain(first: World, second: World, third: World)
    requires
        only_money_moved(first, second),
        only_money_moved(second, third),
    ensures
        only_money_moved(first, third),
{
    assert forall|i: int| 0 <= i < first.npcs@.len() implies #[trigger] third.npcs@[i] == (Npc {
        money_cents: third.npcs@[i].money_cents,
        ..first.npcs@[i]
    }) by {
        assert(second.npcs@[i] == (Npc { money_cents: second.npcs@[i].money_cents, ..first.npcs@[i] }));
        assert(third.npcs@[i] == (Npc { money_cents: third.npcs@[i].money_cents, ..second.npcs@[i] }));
    }
    assert forall|u: int| 0 <= u < first.towns@.len() implies #[trigger] third.towns@[u] == (Town {
        economy: third.towns@[u].economy,
        ..first.towns@[u]
    }) by {
        assert(second.towns@[u] == (Town { economy: second.towns@[u].economy, ..first.towns@[u] }));
        assert(third.towns@[u] == (Town { economy: third.towns@[u].economy, ..second.towns@[u] }));
    }
}

/// What an NPC wants to buy in a month, per good in good order: food every month (less
/// for children), clothing every third month, medicine when sick or every sixth month,
/// tools and luxury now and then for adults, luxury only when well off.
fn wanted_goods(npc: &Npc, month: u8, living_cost: Money) -> (wanted: (u32, u32, u32, u32, u32))
    ensures
        wanted == wanted_spec(*npc, month, living_cost),
        wanted.0 <= 5 && wanted.1 <= 5 && wanted.2 <= 5 && wanted.3 <= 5 && wanted.4 <= 5,
{
    let key: u32 = npc.id.0.saturating_add(month as u32);
    let adult = npc.is_adult();
    let food: u32 = if npc.age < 16 {
        3
    } else {
        5
    };
    let clothing: u32 = if key % 3 == 0 {
        1
    } else {
        0
    };
    let medicine: u32 = match npc.state {
        NpcState::Sick => 2,
        _ => if key % 6 == 0 {
            1
        } else {
            0
        },
    };
    let tools: u32 = if adult && key % 6 == 1 {
        1
    } else {
        0
    };
    let luxury: u32 = if adult && npc.money_cents > saturating_mul_u64(living_cost, 4) && key % 4 == 2 {
        1
    } else {
        0
    };
    (food, clothing, medicine, tools, luxury)
}

/// One town's month: employment and wages, support between relatives, purchases, then
/// productivity and prices.
#[verifier::rlimit(60)]
fn run_town_month(
    world: &mut World,
    t: usize,
    residents: &Vec<NpcId>,
    wage_cents: Money,
    living_cost_cents: Money,
    tax_bps: u32,
    price_adjustment_bps: u32,
    actions: &Vec<Option<Action>>,
)
    requires
        t < old(world).towns@.len(),
        forall|k: int| 0 <= k < residents@.len() ==> npc_at(old(world).npcs@, #[trigger] residents@[k]),
        residents@.len() <= u32::MAX,
    ensures
        only_money_moved(*old(world), *final(world)),
        forall|u: int| 0 <= u < old(world).towns@.len() && u != t ==> #[trigger] final(world).towns@[u] == old(world).towns@[u],
        world_money(*old(world)) <= u64::MAX ==> world_money(*final(world)) == world_money(*old(world)),
        (final(world).npcs@, final(world).towns@[t as int].economy) == town_month_books(
            old(world).npcs@,
            old(world).towns@[t as int],
            residents@,
            actions@,
            old(world).month,
            (wage_cents, living_cost_cents, tax_bps, price_adjustment_bps),
        ),
{
    broadcast use vstd::seq_lib::group_filter_ensures;

    let ghost w0 = *world;
    let ghost town0 = w0.towns@[t as int];
    let jobs = world.towns[t].effective_jobs();
    let education = world.towns[t].effective_education();
    let price_index = world.towns[t].economy.price_index;
    let productivity = world.towns[t].economy.productivity_index;
    let labor = labor_force_of(world, residents, actions);
    let employed = employed_count(labor.len(), jobs);
    proof {
        assert(residents@.filter(working_age(w0.npcs@)).len() <= residents@.len());
    }
    let town = &mut world.towns[t];
    town.economy.labor_force = labor.len();
    town.economy.employed = employed;
    proof {
        crate::ledger::lemma_treasury_update(w0.towns@, t as int, world.towns@[t as int]);
        assert(w0.towns@.update(t as int, world.towns@[t as int]) == world.towns@);
    }
    let ghost w1 = *world;
    let ghost opened = (w1.npcs@, w1.towns@[t as int].economy);
    let mut k: usize = 0;
    while k < employed
        invariant
            t < w1.towns@.len(),
            k <= employed <= labor@.len(),
            forall|i: int| 0 <= i < labor@.len() ==> npc_at(w0.npcs@, #[trigger] labor@[i]),
            only_money_moved(w0, w1),
            month_step(w1, *world, t as int),
            opened == (w1.npcs@, w1.towns@[t as int].economy),
            (world.npcs@, world.towns@[t as int].economy) == wages_paid(opened, labor@.take(k as int), wage_cents, tax_bps, price_index),
        decreases employed - k,
    {
        let ghost before = *world;
        proof {
            assert(npc_at(w0.npcs@, labor@[k as int]));
            assert(world.npcs@[labor@[k as int].0 as int].id == w0.npcs@[labor@[k as int].0 as int].id);
            assert(labor@.take(k as int + 1).drop_last() =~= labor@.take(k as int));
            assert(labor@.take(k as int + 1).last() == labor@[k as int]);
        }
        pay_wage(world, t, labor[k], wage_cents, tax_bps, price_index);
        proof {
            lemma_month_step_chain(w1, before, *world, t as int);
        }
        k = k + 1;
    }
    let ghost paid = (world.npcs@, world.towns@[t as int].economy);
    let living_cost = world.towns[t].economy.indexed_price(living_cost_cents);
    let plan = support_plan(world, residents, living_cost);
    let mut j: usize = 0;
    while j < plan.len()
        invariant
            t < w1.towns@.len(),
            j <= plan@.len(),
            only_money_moved(w0, w1),
            month_step(w1, *world, t as int),
            (world.npcs@, world.towns@[t as int].economy) == transfers_done(paid, plan@.take(j as int)),
        decreases plan.len() - j,
    {
        let ghost before = *world;
        let (donor, recipient, amount) = plan[j];
        proof {
            assert(plan@.take(j as int + 1).drop_last() =~= plan@.take(j as int));
            assert(plan@.take(j as int + 1).last() == (donor, recipient, amount));
        }
        give_support(world, t, donor, recipient, amount);
        proof {
            lemma_month_step_chain(w1, before, *world, t as int);
        }
        j = j + 1;
    }
    proof {
        assert(plan@.take(plan@.len() as int) =~= plan@);
    }
    let ghost supported = (world.npcs@, world.towns@[t as int].economy);
    let mut food: u64 = 0;
    let mut clothing: u64 = 0;
    let mut medicine: u64 = 0;
    let mut tools: u64 = 0;
    let mut luxury: u64 = 0;
    let mut r: usize = 0;
    while r < residents.len()
        invariant
            t < w1.towns@.len(),
            r <= residents@.len(),
            residents@.len() <= u32::MAX,
            forall|i: int| 0 <= i < residents@.len() ==> npc_at(w0.npcs@, #[trigger] residents@[i]),
            only_money_moved(w0, w1),
            month_step(w1, *world, t as int),
            world.month == w0.month,
            (world.npcs@, world.towns@[t as int].economy) == purchases(supported, residents@.take(r as int), w0.month, living_cost),
            food == demand_spec(supported, residents@.take(r as int), w0.month, living_cost, Good::Food),
            clothing == demand_spec(supported, residents@.take(r as int), w0.month, living_cost, Good::Clothing),
            medicine == demand_spec(supported, residents@.take(r as int), w0.month, living_cost, Good::Medicine),
            tools == demand_spec(supported, residents@.take(r as int), w0.month, living_cost, Good::Tools),
            luxury == demand_spec(supported, residents@.take(r as int), w0.month, living_cost, Good::Luxury),
            food <= 5 * r,
            clothing <= 5 * r,
            medicine <= 5 * r,
            tools <= 5 * r,
            luxury <= 5 * r,
        decreases residents.len() - r,
    {
        let id = residents[r];
        proof {
            assert(npc_at(w0.npcs@, id));
            assert(world.npcs@[id.0 as int].id == w0.npcs@[id.0 as int].id);
            assert(residents@.take(r as int + 1).drop_last() =~= residents@.take(r as int));
            assert(residents@.take(r as int + 1).last() == id);
        }
        let wanted = match world.npc(id) {
            Some(npc) => wanted_goods(npc, world.month, living_cost),
            None => (0, 0, 0, 0, 0),
        };
        food = food + wanted.0 as u64;
        clothing = clothing + wanted.1 as u64;
        medicine = medicine + wanted.2 as u64;
        tools = tools + wanted.3 as u64;
        luxury = luxury + wanted.4 as u64;
        let ghost before = *world;
        buy_good(world, t, id, Good::Food, wanted.0);
        proof {
            lemma_month_step_chain(w1, before, *world, t as int);
        }
        let ghost before = *world;
        buy_good(world, t, id, Good::Clothing, wanted.1);
        proof {
            lemma_month_step_chain(w1, before, *world, t as int);
        }
        let ghost before = *world;
        buy_good(world, t, id, Good::Medicine, wanted.2);
        proof {
            lemma_month_step_chain(w1, before, *world, t as int);
        }
        let ghost before = *world;
        buy_good(world, t, id, Good::Tools, wanted.3);
        proof {
            lemma_month_step_chain(w1, before, *world, t as int);
        }
        let ghost before = *world;
        buy_good(world, t, id, Good::Luxury, wanted.4);
        proof {
            lemma_month_step_chain(w1, before, *world, t as int);
        }
        r = r + 1;
    }
    proof {
        assert(residents@.take(residents@.len() as int) =~= residents@);
    }
    let change: i64 = education as i64 - 5;
    let moved: i64 = productivity as i64 + change * 3;
    let new_productivity: u32 = if moved < 5_000 {
        5_000
    } else if moved > 20_000 {
        20_000
    } else {
        moved as u32
    };
    let ghost w2 = *world;
    proof {
        assert(labor@.len() <= u32::MAX);
    }
    let food_price = next_price(&world.towns[t], Good::Food, food, employed, new_productivity, price_adjustment_bps);
    let clothing_price = next_price(&world.towns[t], Good::Clothing, clothing, employed, new_productivity, price_adjustment_bps);
    let medicine_price = next_price(&world.towns[t], Good::Medicine, medicine, employed, new_productivity, price_adjustment_bps);
    let tools_price = next_price(&world.towns[t], Good::Tools, tools, employed, new_productivity, price_adjustment_bps);
    let luxury_price = next_price(&world.towns[t], Good::Luxury, luxury, employed, new_productivity, price_adjustment_bps);
    let town = &mut world.towns[t];
    town.economy.productivity_index = new_productivity;
    town.economy.markets.food.price_index = food_price;
    town.economy.markets.clothing.price_index = clothing_price;
    town.economy.markets.medicine.price_index = medicine_price;
    town.economy.markets.tools.price_index = tools_price;
    town.economy.markets.luxury.price_index = luxury_price;
    town.economy.update_consumer_price_index();
    proof {
        crate::ledger::lemma_treasury_update(w2.towns@, t as int, world.towns@[t as int]);
        assert(w2.towns@.update(t as int, world.towns@[t as int]) == world.towns@);
        lemma_only_money_moved_chain(w0, w1, w2);
        lemma_only_money_moved_chain(w0, w2, *world);
        let town2 = w2.towns@[t as int];
        assert forall|good: Good| #[trigger] next_price_spec(town2, good, 0, employed as int, new_productivity as int, price_adjustment_bps)
            == next_price_spec(town0, good, 0, employed as int, new_productivity as int, price_adjustment_bps) by {
            assert(w1.towns@[t as int].economy.markets == town0.economy.markets);
        }
        assert forall|good: Good, demand: int| #[trigger] next_price_spec(town2, good, demand, employed as int, new_productivity as int, price_adjustment_bps)
            == next_price_spec(town0, good, demand, employed as int, new_productivity as int, price_adjustment_bps) by {
            assert(w1.towns@[t as int].economy.markets == town0.economy.markets);
            assert(town2.economy.markets.market(good).price_index == w1.towns@[t as int].economy.markets.market(good).price_index);
            assert(town2.economy.markets.market(good).annual_supply_shock_basis_points
                == town0.economy.markets.market(good).annual_supply_shock_basis_points);
        }
        let labor_count = labor@.len() as int;
        assert(employed == employed_spec(labor_count, town0.effective_jobs_spec()));
        assert(new_productivity == productivity_after(town0));
        assert(w1.towns@[t as int].economy == (TownEconomy {
            labor_force: labor@.len() as usize,
            employed: employed,
            ..town0.economy
        }));
        assert(w2.towns@[t as int].economy.price_index == town0.economy.price_index);
    }
}

/// The NPCs after the first `n` towns have had their month (`town_month_books`), town by
/// town in order, each town's residents those of `start`.
pub open spec fn npcs_after_towns(
    start: World,
    actions: Seq<Option<Action>>,
    terms: (u64, u64, u32, u32),
    n: nat,
) -> Seq<Npc>
    decreases n,
{
    if n == 0 {
        start.npcs@
    } else {
        let t = n - 1;
        town_month_books(
            npcs_after_towns(start, actions, terms, (n - 1) as nat),
            start.towns@[t],
            town_residents(start, t),
            actions,
            start.month,
            terms,
        ).0
    }
}

/// The town at index `t` after its month, the towns before it having had theirs.
pub open spec fn town_after_month(
    start: World,
    actions: Seq<Option<Action>>,
    terms: (u64, u64, u32, u32),
    t: int,
) -> Town {
    Town {
        economy: town_month_books(
            npcs_after_towns(start, actions, terms, t as nat),
            start.towns@[t],
            town_residents(start, t),
            actions,
            start.month,
            terms,
        ).1,
        ..start.towns@[t]
    }
}

impl EconomyExtension {
    /// The economy's month in every town, town by town (`town_month_books`): employment
    /// and wages paid from the treasury net of income tax, support from a partner or
    /// parent to residents short of the living cost, purchases of goods at the town's
    /// prices, then productivity, each good's price from its demand and supply, and the
    /// consumer price index. Money only moves between NPCs and treasuries: none is made
    /// or lost while it all fits in a `u64`.
    #[verifier::spinoff_prover]
    #[verifier::rlimit(80)]
    pub fn run_month(
        world: &mut World,
        wage_cents: Money,
        living_cost_cents: Money,
        tax_bps: u32,
        price_adjustment_bps: u32,
        actions: &Vec<Option<Action>>,
    )
        requires
            old(world).active_npcs@.len() <= u32::MAX,
        ensures
            only_money_moved(*old(world), *final(world)),
            final(world).npcs@ == npcs_after_towns(
                *old(world),
                actions@,
                (wage_cents, living_cost_cents, tax_bps, price_adjustment_bps),
                old(world).towns@.len(),
            ),
            forall|t: int|
                0 <= t < old(world).towns@.len() ==> #[trigger] final(world).towns@[t] == town_after_month(
                    *old(world),
                    actions@,
                    (wage_cents, living_cost_cents, tax_bps, price_adjustment_bps),
                    t,
                ),
            world_money(*old(world)) <= u64::MAX ==> world_money(*final(world)) == world_money(*old(world)),
    {
        broadcast use vstd::seq_lib::group_filter_ensures;

        let ghost start = *world;
        let ghost terms = (wage_cents, living_cost_cents, tax_bps, price_adjustment_bps);
        let residents = world.residents_by_town();
        let mut t: usize = 0;
        while t < residents.len()
            invariant
                t <= residents@.len(),
                residents@.len() == start.towns@.len(),
                forall|u: int| 0 <= u < residents@.len() ==> (#[trigger] residents@[u])@ == town_residents(start, u),
                start.active_npcs@.len() <= u32::MAX,
                terms == (wage_cents, living_cost_cents, tax_bps, price_adjustment_bps),
                only_money_moved(start, *world),
                world.npcs@ == npcs_after_towns(start, actions@, terms, t as nat),
                forall|u: int| t <= u < start.towns@.len() ==> #[trigger] world.towns@[u] == start.towns@[u],
                forall|u: int| 0 <= u < t ==> #[trigger] world.towns@[u] == town_after_month(start, actions@, terms, u),
                world_money(start) <= u64::MAX ==> world_money(*world) == world_money(start),
            decreases residents.len() - t,
        {
            let ghost before = *world;
            let here = &residents[t];
            proof {
                let pick = resident_in(start.npcs@, t as int);
                assert forall|k: int| 0 <= k < here@.len() implies npc_at(world.npcs@, #[trigger] here@[k]) by {
                    assert(pick(start.active_npcs@.filter(pick)[k]));
                    assert(world.npcs@[here@[k].0 as int] == (Npc {
                        money_cents: world.npcs@[here@[k].0 as int].money_cents,
                        ..start.npcs@[here@[k].0 as int]
                    }));
                }
            }
            run_town_month(
                world,
                t,
                here,
                wage_cents,
                living_cost_cents,
                tax_bps,
                price_adjustment_bps,
                actions,
            );
            proof {
                lemma_only_money_moved_chain(start, before, *world);
                assert(before.towns@[t as int] == start.towns@[t as int]);
                assert(before.month == start.month);
                assert(world.npcs@ == npcs_after_towns(start, actions@, terms, (t + 1) as nat));
                assert(world.towns@[t as int] == town_after_month(start, actions@, terms, t as int));
                assert forall|u: int| 0 <= u < t + 1 implies #[trigger] world.towns@[u] == town_after_month(
                    start,
                    actions@,
                    terms,
                    u,
                ) by {
                    if u < t {
                        assert(world.towns@[u] == before.towns@[u]);
                    }
                }
            }
            t = t + 1;
        }
    }
}

/// `after` differs from `before` at most in the NPCs' cash and goods and the towns'
/// economies.
pub open spec fn only_estates_moved(before: World, after: World) -> bool {
    &&& after.npcs@.len() == before.npcs@.len()
    &&& forall|i: int|
        0 <= i < before.npcs@.len() ==> #[trigger] after.npcs@[i] == (Npc {
            money_cents: after.npcs@[i].money_cents,
            inventory: after.npcs@[i].inventory,
            ..before.npcs@[i]
        })
    &&& after.towns@.len() == before.towns@.len()
    &&& forall|u: int|
        0 <= u < before.towns@.len() ==> #[trigger] after.towns@[u] == (Town {
            economy: after.towns@[u].economy,
            ..before.towns@[u]
        })
    &&& after == (World { npcs: after.npcs, towns: after.towns, ..before })
}

proof fn lemma_only_estates_moved_chain(first: World, second: World, third: World)
    requires
        only_estates_moved(first, second),
        only_estates_moved(second, third),
    ensures
        only_estates_moved(first, third),
{
    assert forall|i: int| 0 <= i < first.npcs@.len() implies #[trigger] third.npcs@[i] == (Npc {
        money_cents: third.npcs@[i].money_cents,
        inventory: third.npcs@[i].inventory,
        ..first.npcs@[i]
    }) by {
        assert(second.npcs@[i] == (Npc {
            money_cents: second.npcs@[i].money_cents,
            inventory: second.npcs@[i].inventory,
            ..first.npcs@[i]
        }));
        assert(third.npcs@[i] == (Npc {
            money_cents: third.npcs@[i].money_cents,
            inventory: third.npcs@[i].inventory,
            ..second.npcs@[i]
        }));
    }
    assert forall|u: int| 0 <= u < first.towns@.len() implies #[trigger] third.towns@[u] == (Town {
        economy: third.towns@[u].economy,
        ..first.towns@[u]
    }) by {
        assert(second.towns@[u] == (Town { economy: second.towns@[u].economy, ..first.towns@[u] }));
        assert(third.towns@[u] == (Town { economy: third.towns@[u].economy, ..second.towns@[u] }));
    }
}

fn listed(ids: &Vec<NpcId>, id: NpcId) -> (found: bool)
    ensures
        found == ids@.contains(id),
{
    let mut k: usize = 0;
    while k < ids.len()
        invariant
            k <= ids@.len(),
            forall|j: int| 0 <= j < k ==> ids@[j] != id,
        decreases ids.len() - k,
    {
        if ids[k] == id {
            return true;
        }
        k = k + 1;
    }
    false
}

/// The NPCs, towns and dead so far after the estates of a batch of deaths are settled in
/// the batch's order: each NPC listed that is still active and not already dead in the
/// batch leaves its estate (`estate_npcs`, `estate_towns`) to its family but for those
/// dead before it in the batch.
pub open spec fn estates_settled(npcs: Seq<Npc>, towns: Seq<Town>, deaths: Seq<(NpcId, DeathCause)>) -> (
    Seq<Npc>,
    Seq<Town>,
    Seq<NpcId>,
)
    decreases deaths.len(),
{
    if deaths.len() == 0 {
        (npcs, towns, Seq::empty())
    } else {
        let state = estates_settled(npcs, towns, deaths.drop_last());
        let id = deaths.last().0;
        let current = state.0;
        let gone = state.2;
        if npc_at(current, id) && current[id.0 as int].active() && !gone.contains(id) {
            let candidates = family_list(current[id.0 as int]).filter(|x: NpcId| !gone.contains(x));
            (estate_npcs(current, id, candidates), estate_towns(current, state.1, id, candidates), gone.push(id))
        } else {
            state
        }
    }
}

/// Settles the estates of a batch of deaths before it is committed, in the batch's order:
/// each NPC listed that is active, at its first listing, leaves its cash and goods to its
/// family (`affected_family`) but for those dying before it in the batch, as
/// `before_npc_death` does. Only cash, goods and the towns' treasuries change.
pub fn inherit_estates(world: &mut World, deaths: &Vec<(NpcId, DeathCause)>)
    ensures
        final(world).npcs@ == estates_settled(old(world).npcs@, old(world).towns@, deaths@).0,
        final(world).towns@ == estates_settled(old(world).npcs@, old(world).towns@, deaths@).1,
        *final(world) == (World { npcs: final(world).npcs, towns: final(world).towns, ..*old(world) }),
        only_estates_moved(*old(world), *final(world)),
{
    let ghost start = *world;
    let mut gone: Vec<NpcId> = Vec::new();
    let mut k: usize = 0;
    while k < deaths.len()
        invariant
            k <= deaths@.len(),
            only_estates_moved(start, *world),
            (world.npcs@, world.towns@, gone@) == estates_settled(start.npcs@, start.towns@, deaths@.take(k as int)),
        decreases deaths.len() - k,
    {
        let (id, _) = deaths[k];
        proof {
            assert(deaths@.take(k as int + 1).drop_last() =~= deaths@.take(k as int));
            assert(deaths@.take(k as int + 1).last() == deaths@[k as int]);
        }
        let family = match world.npc(id) {
            Some(npc) => {
                if npc.is_active() && !listed(&gone, id) {
                    let found = affected_family(npc);
                    proof {
                        let chosen = family_list(*npc);
                        assert(npc_ids_sorted(chosen) && forall|x: NpcId| #[trigger] chosen.contains(x) <==> in_family_of(*npc, x));
                        lemma_sorted_ids_equal(found@, chosen);
                    }
                    Some(found)
                } else {
                    None
                }
            },
            None => None,
        };
        match family {
            Some(family) => {
                let ghost keep = |x: NpcId| !gone@.contains(x);
                let mut candidates: Vec<NpcId> = Vec::new();
                let mut f: usize = 0;
                while f < family.len()
                    invariant
                        f <= family@.len(),
                        keep == (|x: NpcId| !gone@.contains(x)),
                        candidates@ == family@.take(f as int).filter(keep),
                    decreases family.len() - f,
                {
                    if !listed(&gone, family[f]) {
                        candidates.push(family[f]);
                    }
                    proof {
                        assert(family@.take(f as int + 1) =~= family@.take(f as int).push(family@[f as int]));
                        family@.take(f as int).lemma_filter_push(family@[f as int], keep);
                    }
                    f = f + 1;
                }
                proof {
                    assert(family@.take(family@.len() as int) =~= family@);
                }
                let ghost before = *world;
                EconomyExtension::before_npc_death(world, id, &candidates);
                proof {
                    lemma_only_estates_moved_chain(start, before, *world);
                }
                gone.push(id);
            },
            None => {},
        }
        k = k + 1;
    }
    proof {
        assert(deaths@.take(deaths@.len() as int) =~= deaths@);
    }
}

/// Cash handed to heirs in their order: each gets `share` and the first also `remainder`,
/// each addition saturating; an id that names no NPC gets nothing.
pub open spec fn shares_paid(npcs: Seq<Npc>, heirs: Seq<NpcId>, share: u64, remainder: u64) -> Seq<Npc>
    decreases heirs.len(),
{
    if heirs.len() == 0 {
        npcs
    } else {
        let paid = shares_paid(npcs, heirs.drop_last(), share, remainder);
        let heir = heirs.last();
        let amount: u64 = if heirs.len() == 1 {
            (share + remainder) as u64
        } else {
            share
        };
        if npc_at(paid, heir) {
            paid.update(
                heir.0 as int,
                Npc { money_cents: paid[heir.0 as int].money_cents.saturating_add(amount), ..paid[heir.0 as int] },
            )
        } else {
            paid
        }
    }
}

/// The NPCs after `deceased` leaves its estate to the active NPCs among `candidates`: its
/// cash and goods are taken; with heirs, each gets an equal share of the cash, the first
/// also the remainder and all the goods.
pub open spec fn estate_npcs(npcs: Seq<Npc>, deceased: NpcId, candidates: Seq<NpcId>) -> Seq<Npc> {
    if !npc_at(npcs, deceased) {
        npcs
    } else {
        let dead = npcs[deceased.0 as int];
        let heirs = heirs_of(npcs, candidates);
        let cleared = npcs.update(deceased.0 as int, Npc { money_cents: 0, inventory: Inventory::nothing(), ..dead });
        if heirs.len() == 0 {
            cleared
        } else {
            let paid = shares_paid(
                cleared,
                heirs,
                dead.money_cents / (heirs.len() as u64),
                dead.money_cents % (heirs.len() as u64),
            );
            let first = heirs[0];
            if npc_at(paid, first) {
                paid.update(
                    first.0 as int,
                    Npc { inventory: paid[first.0 as int].inventory.merged(dead.inventory), ..paid[first.0 as int] },
                )
            } else {
                paid
            }
        }
    }
}

/// The towns after `deceased` leaves its estate: without heirs among `candidates` its cash
/// goes to the treasury of its town (when that town exists); otherwise no town changes.
pub open spec fn estate_towns(npcs: Seq<Npc>, towns: Seq<Town>, deceased: NpcId, candidates: Seq<NpcId>) -> Seq<Town> {
    if npc_at(npcs, deceased) && heirs_of(npcs, candidates).len() == 0 && town_at(
        towns,
        npcs[deceased.0 as int].town,
    ) {
        let t = npcs[deceased.0 as int].town.0 as int;
        towns.update(
            t,
            Town {
                economy: TownEconomy {
                    treasury_cents: towns[t].economy.treasury_cents.saturating_add(npcs[deceased.0 as int].money_cents),
                    ..towns[t].economy
                },
                ..towns[t]
            },
        )
    } else {
        towns
    }
}

/// The active NPCs among `candidates`, in their order.
pub open spec fn heirs_of(npcs: Seq<Npc>, candidates: Seq<NpcId>) -> Seq<NpcId> {
    candidates.filter(|id: NpcId| npc_at(npcs, id) && npcs[id.0 as int].active())
}

fn active_heirs(world: &World, candidates: &Vec<NpcId>) -> (heirs: Vec<NpcId>)
    ensures
        heirs@ == heirs_of(world.npcs@, candidates@),
{
    let ghost pick = |id: NpcId| npc_at(world.npcs@, id) && world.npcs@[id.0 as int].active();
    let mut heirs: Vec<NpcId> = Vec::new();
    let mut k: usize = 0;
    while k < candidates.len()
        invariant
            k <= candidates@.len(),
            pick == (|id: NpcId| npc_at(world.npcs@, id) && world.npcs@[id.0 as int].active()),
            heirs@ == candidates@.take(k as int).filter(pick),
        decreases candidates.len() - k,
    {
        let id = candidates[k];
        let keep = match world.npc(id) {
            Some(npc) => npc.is_active(),
            None => false,
        };
        if keep {
            heirs.push(id);
        }
        proof {
            assert(candidates@.take(k as int + 1) =~= candidates@.take(k as int).push(id));
            candidates@.take(k as int).lemma_filter_push(id, pick);
        }
        k = k + 1;
    }
    proof {
        assert(candidates@.take(candidates@.len() as int) =~= candidates@);
    }
    heirs
}

impl EconomyExtension {
    /// Before an NPC dies its cash and goods go to its heirs, the active NPCs among
    /// `candidates`: the cash in equal shares, the remainder to the first heir, and all the
    /// goods to the first heir. Without heirs the cash goes to the treasury of the NPC's
    /// town. Only cash, goods and that treasury change, and with heirs no money is made or
    /// lost while it all fits in a `u64`.
    pub fn before_npc_death(world: &mut World, deceased: NpcId, candidates: &Vec<NpcId>)
        ensures
            final(world).npcs@ == estate_npcs(old(world).npcs@, deceased, candidates@),
            final(world).towns@ == estate_towns(old(world).npcs@, old(world).towns@, deceased, candidates@),
            !npc_at(old(world).npcs@, deceased) ==> *final(world) == *old(world),
            only_estates_moved(*old(world), *final(world)),
            final(world).npcs@.len() == old(world).npcs@.len(),
            forall|i: int|
                0 <= i < old(world).npcs@.len() ==> #[trigger] final(world).npcs@[i] == (Npc {
                    money_cents: final(world).npcs@[i].money_cents,
                    inventory: final(world).npcs@[i].inventory,
                    ..old(world).npcs@[i]
                }),
            forall|i: int|
                0 <= i < old(world).npcs@.len() && i != deceased.0 && !heirs_of(old(world).npcs@, candidates@).contains(
                    old(world).npcs@[i].id,
                ) ==> #[trigger] final(world).npcs@[i] == old(world).npcs@[i],
            npc_at(old(world).npcs@, deceased) && heirs_of(old(world).npcs@, candidates@).len() == 0 ==> {
                let before = old(world).npcs@[deceased.0 as int];
                &&& final(world).npcs@ == old(world).npcs@.update(
                    deceased.0 as int,
                    Npc { money_cents: 0, inventory: final(world).npcs@[deceased.0 as int].inventory, ..before },
                )
                &&& forall|good: Good| #[trigger] final(world).npcs@[deceased.0 as int].inventory.count(good) == 0
                &&& town_at(old(world).towns@, before.town) ==> final(world).towns@ == old(world).towns@.update(
                    before.town.0 as int,
                    Town {
                        economy: TownEconomy {
                            treasury_cents: old(world).towns@[before.town.0 as int].economy.treasury_cents.saturating_add(
                                before.money_cents,
                            ),
                            ..old(world).towns@[before.town.0 as int].economy
                        },
                        ..old(world).towns@[before.town.0 as int]
                    },
                )
                &&& !town_at(old(world).towns@, before.town) ==> final(world).towns@ == old(world).towns@
            },
            npc_at(old(world).npcs@, deceased) && heirs_of(old(world).npcs@, candidates@).len() > 0 ==> {
                &&& final(world).towns@ == old(world).towns@
                &&& world_money(*old(world)) <= u64::MAX ==> world_money(*final(world)) == world_money(*old(world))
                &&& !heirs_of(old(world).npcs@, candidates@).contains(deceased) ==> final(world).npcs@[deceased.0 as int].money_cents
                    == 0
            },
    {
        broadcast use vstd::seq_lib::group_filter_ensures;

        let (town, estate, goods) = match world.npc(deceased) {
            Some(npc) => (npc.town, npc.money_cents, npc.inventory),
            None => {
                return;
            },
        };
        let ghost w0 = *world;
        let heirs = active_heirs(world, candidates);
        match world.npc_mut(deceased) {
            Some(npc) => {
                npc.money_cents = 0;
                npc.inventory = Inventory::empty();
            },
            None => {},
        }
        let ghost w1 = *world;
        proof {
            crate::ledger::lemma_cash_update(w0.npcs@, deceased.0 as int, w1.npcs@[deceased.0 as int]);
        }
        if heirs.len() == 0 {
            match world.town_mut(town) {
                Some(place) => {
                    place.economy.treasury_cents = place.economy.treasury_cents.saturating_add(estate);
                },
                None => {},
            }
            return;
        }
        let count = heirs.len() as u64;
        let share = estate / count;
        let remainder = estate % count;
        proof {
            assert(share * count + remainder == estate) by (nonlinear_arith)
                requires
                    share == estate / count,
                    remainder == estate % count,
                    count > 0,
            ;
        }
        let mut given: u64 = 0;
        let mut i: usize = 0;
        while i < heirs.len()
            invariant
                heirs@ == heirs_of(w0.npcs@, candidates@),
                count == heirs@.len(),
                count > 0,
                share * count + remainder == estate,
                i <= heirs@.len(),
                given == (if i == 0 { 0 } else { share * i + remainder }),
                world.npcs@.len() == w0.npcs@.len(),
                *world == (World { npcs: world.npcs, ..w1 }),
                forall|j: int|
                    0 <= j < w0.npcs@.len() ==> #[trigger] world.npcs@[j] == (Npc {
                        money_cents: world.npcs@[j].money_cents,
                        inventory: w1.npcs@[j].inventory,
                        ..w0.npcs@[j]
                    }),
                forall|j: int|
                    0 <= j < w0.npcs@.len() && !heirs@.contains(w0.npcs@[j].id) ==> #[trigger] world.npcs@[j] == w1.npcs@[j],
                forall|j: int| 0 <= j < w0.npcs@.len() && j != deceased.0 ==> #[trigger] w1.npcs@[j] == w0.npcs@[j],
                w1.npcs@[deceased.0 as int].money_cents == 0,
                npc_at(w0.npcs@, deceased),
                world_money(w0) <= u64::MAX ==> cash_total(world.npcs@) == cash_total(w1.npcs@) + given,
                cash_total(w1.npcs@) == cash_total(w0.npcs@) - estate,
                !heirs@.contains(deceased) ==> world.npcs@[deceased.0 as int].money_cents == 0,
                world.npcs@ == shares_paid(w1.npcs@, heirs@.take(i as int), share, remainder),
                w1.npcs@ == w0.npcs@.update(
                    deceased.0 as int,
                    Npc { money_cents: 0, inventory: Inventory::nothing(), ..w0.npcs@[deceased.0 as int] },
                ),
            decreases heirs.len() - i,
        {
            let heir = heirs[i];
            proof {
                assert(heirs@.contains(heir));
                assert(share * i + remainder <= estate) by (nonlinear_arith)
                    requires
                        share * count + remainder == estate,
                        i < count,
                        share >= 0,
                ;
                assert(share * (i + 1) + remainder <= estate) by (nonlinear_arith)
                    requires
                        share * count + remainder == estate,
                        i + 1 <= count,
                        share >= 0,
                ;
                assert(share * (i + 1) == share * i + share) by (nonlinear_arith);
            }
            let amount: u64 = if i == 0 {
                share + remainder
            } else {
                share
            };
            let ghost before = *world;
            match world.npc_mut(heir) {
                Some(npc) => {
                    npc.money_cents = npc.money_cents.saturating_add(amount);
                },
                None => {},
            }
            proof {
                let pick = |id: NpcId| npc_at(w0.npcs@, id) && w0.npcs@[id.0 as int].active();
                let m = choose|m: int| 0 <= m < heirs@.len() && heirs@[m] == heir;
                assert(pick(candidates@.filter(pick)[m]));
                assert(npc_at(w0.npcs@, heir));
                assert(before.npcs@[heir.0 as int].id == heir);
                crate::ledger::lemma_cash_update(before.npcs@, heir.0 as int, world.npcs@[heir.0 as int]);
                if world_money(w0) <= u64::MAX {
                    crate::ledger::lemma_cash_bound(before.npcs@, heir.0 as int, heir.0 as int);
                    crate::ledger::lemma_cash_bound(w0.npcs@, heir.0 as int, heir.0 as int);
                    crate::ledger::lemma_treasury_nonnegative(w0.towns@);
                    crate::ledger::lemma_cash_nonnegative(w1.npcs@);
                    assert(before.npcs@[heir.0 as int].money_cents + amount <= u64::MAX);
                }
                if heir != deceased {
                    assert(heir.0 != deceased.0);
                }
                assert(heirs@.take(i as int + 1).drop_last() =~= heirs@.take(i as int));
                assert(heirs@.take(i as int + 1).last() == heir);
            }
            let ghost earlier = given;
            given = given + amount;
            proof {
                assert(share * (i + 1) == share * i + share) by (nonlinear_arith);
                assert(share * 1 == share) by (nonlinear_arith);
                if i == 0 {
                    assert(earlier == 0);
                    assert(given == share * (i + 1) + remainder);
                } else {
                    assert(earlier == share * i + remainder);
                    assert(given == share * (i + 1) + remainder);
                }
            }
            i = i + 1;
        }
        proof {
            assert(heirs@.take(heirs@.len() as int) =~= heirs@);
        }
        let first = heirs[0];
        let ghost w2 = *world;
        match world.npc_mut(first) {
            Some(npc) => {
                npc.inventory.merge(&goods);
            },
            None => {},
        }
        proof {
            let pick = |id: NpcId| npc_at(w0.npcs@, id) && w0.npcs@[id.0 as int].active();
            assert(pick(candidates@.filter(pick)[0]));
            assert(heirs@.contains(first));
            crate::ledger::lemma_cash_update(w2.npcs@, first.0 as int, world.npcs@[first.0 as int]);
            assert(w2.npcs@.update(first.0 as int, world.npcs@[first.0 as int]) == world.npcs@);
        }
    }
}

/// The cash of the NPCs listed, in the list's order.
pub open spec fn cash_of(npcs: Seq<Npc>, ids: Seq<NpcId>) -> Seq<u64> {
    ids.map_values(|id: NpcId| npcs[id.0 as int].money_cents)
}

/// The sum of the values, saturating at `u64::MAX`.
pub open spec fn saturating_total(values: Seq<u64>) -> u64
    decreases values.len(),
{
    if values.len() == 0 {
        0
    } else {
        saturating_total(values.drop_last()).saturating_add(values.last())
    }
}

/// A good's line in a town's economic statistics.
pub open spec fn good_statistics_spec(economy: TownEconomy, good: Good) -> GoodPriceStatistics {
    let market = economy.markets.market(good);
    GoodPriceStatistics {
        good,
        unit_price_cents: indexed_price_spec(base_price_spec(good), market.price_index) as u64,
        price_index: market.price_index,
        inflation_basis_points: price_change_spec(market.price_index, market.previous_year_price_index) as i32,
        annual_quantity: market.annual_quantity,
        annual_trade_volume_cents: market.annual_trade_volume_cents,
        supply_shock_basis_points: market.annual_supply_shock_basis_points,
    }
}

/// A town's economic statistics: its year's flows, its residents' wealth and its
/// inequality, its treasury, prices, employment, and each good's line.
pub open spec fn town_statistics_ok(world: World, t: int, stats: TownEconomicStatistics) -> bool {
    let town = world.towns@[t];
    let economy = town.economy;
    let cash = cash_of(world.npcs@, town_residents(world, t));
    &&& stats.town == town.id
    &&& stats.gross_product_cents == economy.annual_output_cents
    &&& stats.trade_volume_cents == economy.annual_trade_volume_cents
    &&& stats.transactions == economy.annual_transactions
    &&& stats.transfers == economy.annual_transfers
    &&& stats.resident_wealth_cents == saturating_total(cash)
    &&& stats.treasury_cents == economy.treasury_cents
    &&& stats.economic_power_cents == economy.annual_output_cents.saturating_add(saturating_total(cash)).saturating_add(
        economy.treasury_cents,
    )
    &&& stats.price_index == economy.price_index
    &&& stats.inflation_basis_points == price_change_spec(economy.price_index, economy.previous_year_price_index)
    &&& stats.labor_force == economy.labor_force
    &&& stats.employed == economy.employed
    &&& stats.unemployment_basis_points == (if economy.labor_force == 0 {
        0int
    } else {
        (if economy.employed >= economy.labor_force {
            0int
        } else {
            economy.labor_force - economy.employed
        }) * 10_000 / (economy.labor_force as int)
    })
    &&& stats.gini_basis_points == gini_spec(cash)
    &&& stats.goods@ == seq![
        good_statistics_spec(economy, Good::Food),
        good_statistics_spec(economy, Good::Clothing),
        good_statistics_spec(economy, Good::Medicine),
        good_statistics_spec(economy, Good::Tools),
        good_statistics_spec(economy, Good::Luxury),
    ]
}

fn good_statistics(economy: &TownEconomy, good: Good) -> (stats: GoodPriceStatistics)
    ensures
        stats == good_statistics_spec(*economy, good),
{
    let market = economy.markets.get(good);
    GoodPriceStatistics {
        good,
        unit_price_cents: economy.good_price(good),
        price_index: market.price_index,
        inflation_basis_points: market.inflation_basis_points(),
        annual_quantity: market.annual_quantity,
        annual_trade_volume_cents: market.annual_trade_volume_cents,
        supply_shock_basis_points: market.annual_supply_shock_basis_points,
    }
}

impl World {
    /// Whether every town's Gini computation over its residents' cash stays within 128
    /// bits (`gini_fits`), as the economic statistics need.
    pub fn economic_statistics_fit(&self) -> (fits: bool)
        ensures
            fits == forall|t: int| 0 <= t < self.towns@.len() ==> #[trigger] gini_fits(cash_of(self.npcs@, town_residents(*self, t))),
    {
        broadcast use vstd::seq_lib::group_filter_ensures;

        let residents = self.residents_by_town();
        let mut t: usize = 0;
        while t < self.towns.len()
            invariant
                t <= self.towns@.len(),
                residents@.len() == self.towns@.len(),
                forall|u: int| 0 <= u < residents@.len() ==> (#[trigger] residents@[u])@ == town_residents(*self, u),
                forall|u: int| 0 <= u < t ==> #[trigger] gini_fits(cash_of(self.npcs@, town_residents(*self, u))),
            decreases self.towns.len() - t,
        {
            let here = &residents[t];
            let ghost pick = resident_in(self.npcs@, t as int);
            let mut cash: Vec<u64> = Vec::new();
            let mut k: usize = 0;
            while k < here.len()
                invariant
                    k <= here@.len(),
                    here@ == town_residents(*self, t as int),
                    pick == resident_in(self.npcs@, t as int),
                    cash@ == cash_of(self.npcs@, here@.take(k as int)),
                decreases here.len() - k,
            {
                let id = here[k];
                proof {
                    assert(pick(self.active_npcs@.filter(pick)[k as int]));
                }
                let money = match self.npc(id) {
                    Some(npc) => npc.money_cents,
                    None => 0,
                };
                cash.push(money);
                proof {
                    assert(here@.take(k as int + 1) =~= here@.take(k as int).push(id));
                    assert(cash@ =~= cash_of(self.npcs@, here@.take(k as int + 1)));
                }
                k = k + 1;
            }
            proof {
                assert(here@.take(here@.len() as int) =~= here@);
            }
            if !gini_fits_check(cash.as_slice()) {
                return false;
            }
            t = t + 1;
        }
        true
    }

    /// Each town's economy, in the order of the towns: flows, residents' wealth and its
    /// Gini coefficient, treasury, prices, employment and goods.
    pub fn town_economic_statistics(&self) -> (statistics: Vec<TownEconomicStatistics>)
        requires
            forall|t: int| 0 <= t < self.towns@.len() ==> #[trigger] gini_fits(cash_of(self.npcs@, town_residents(*self, t))),
        ensures
            statistics@.len() == self.towns@.len(),
            forall|t: int| 0 <= t < statistics@.len() ==> town_statistics_ok(*self, t, #[trigger] statistics@[t]),
    {
        broadcast use vstd::seq_lib::group_filter_ensures;

        let residents = self.residents_by_town();
        let mut statistics: Vec<TownEconomicStatistics> = Vec::new();
        let mut t: usize = 0;
        while t < self.towns.len()
            invariant
                t <= self.towns@.len(),
                residents@.len() == self.towns@.len(),
                forall|u: int| 0 <= u < residents@.len() ==> (#[trigger] residents@[u])@ == town_residents(*self, u),
                forall|u: int| 0 <= u < self.towns@.len() ==> #[trigger] gini_fits(cash_of(self.npcs@, town_residents(*self, u))),
                statistics@.len() == t,
                forall|u: int| 0 <= u < t ==> town_statistics_ok(*self, u, #[trigger] statistics@[u]),
            decreases self.towns.len() - t,
        {
            let here = &residents[t];
            let ghost pick = resident_in(self.npcs@, t as int);
            let mut cash: Vec<u64> = Vec::new();
            let mut wealth: u64 = 0;
            let mut k: usize = 0;
            while k < here.len()
                invariant
                    k <= here@.len(),
                    here@ == town_residents(*self, t as int),
                    pick == resident_in(self.npcs@, t as int),
                    cash@ == cash_of(self.npcs@, here@.take(k as int)),
                    wealth == saturating_total(cash@),
                decreases here.len() - k,
            {
                let id = here[k];
                proof {
                    assert(pick(self.active_npcs@.filter(pick)[k as int]));
                }
                let money = match self.npc(id) {
                    Some(npc) => npc.money_cents,
                    None => 0,
                };
                let ghost before = cash@;
                cash.push(money);
                wealth = wealth.saturating_add(money);
                proof {
                    assert(here@.take(k as int + 1) =~= here@.take(k as int).push(id));
                    assert(cash@ =~= cash_of(self.npcs@, here@.take(k as int + 1)));
                    assert(cash@.drop_last() == before);
                }
                k = k + 1;
            }
            proof {
                assert(here@.take(here@.len() as int) =~= here@);
                assert(gini_fits(cash_of(self.npcs@, town_residents(*self, t as int))));
                crate::economy::lemma_gini_fits(cash@);
            }
            let gini = gini_basis_points(cash.as_slice());
            let town = &self.towns[t];
            let economy = &town.economy;
            let mut goods: Vec<GoodPriceStatistics> = Vec::new();
            goods.push(good_statistics(economy, Good::Food));
            goods.push(good_statistics(economy, Good::Clothing));
            goods.push(good_statistics(economy, Good::Medicine));
            goods.push(good_statistics(economy, Good::Tools));
            goods.push(good_statistics(economy, Good::Luxury));
            let entry = TownEconomicStatistics {
                town: town.id,
                gross_product_cents: economy.annual_output_cents,
                trade_volume_cents: economy.annual_trade_volume_cents,
                transactions: economy.annual_transactions,
                transfers: economy.annual_transfers,
                resident_wealth_cents: wealth,
                treasury_cents: economy.treasury_cents,
                economic_power_cents: economy.annual_output_cents.saturating_add(wealth).saturating_add(
                    economy.treasury_cents,
                ),
                price_index: economy.price_index,
                inflation_basis_points: economy.inflation_basis_points(),
                labor_force: economy.labor_force,
                employed: economy.employed,
                unemployment_basis_points: economy.unemployment_basis_points(),
                gini_basis_points: gini,
                goods,
            };
            proof {
                assert(entry.goods@ =~= seq![
                    good_statistics_spec(*economy, Good::Food),
                    good_statistics_spec(*economy, Good::Clothing),
                    good_statistics_spec(*economy, Good::Medicine),
                    good_statistics_spec(*economy, Good::Tools),
                    good_statistics_spec(*economy, Good::Luxury),
                ]);
            }
            statistics.push(entry);
            t = t + 1;
        }
        statistics
    }
}

/// The totals a year's statistics take from the towns' economic statistics, each
/// saturating.
pub open spec fn economy_totals(statistics: YearStatistics, towns: Seq<TownEconomicStatistics>) -> YearStatistics {
    YearStatistics {
        gross_product_cents: saturating_total(towns.map_values(|e: TownEconomicStatistics| e.gross_product_cents)),
        trade_volume_cents: saturating_total(towns.map_values(|e: TownEconomicStatistics| e.trade_volume_cents)),
        economic_transactions: saturating_total(towns.map_values(|e: TownEconomicStatistics| e.transactions)),
        money_transfers: saturating_total(towns.map_values(|e: TownEconomicStatistics| e.transfers)),
        town_economies: statistics.town_economies,
        ..statistics
    }
}

impl EconomyExtension {
    /// Closes a year's statistics with the economy: each town's economic statistics and
    /// their totals of output, trade, transactions and transfers.
    pub fn finish_year(world: &World, statistics: &mut YearStatistics)
        requires
            forall|t: int| 0 <= t < world.towns@.len() ==> #[trigger] gini_fits(cash_of(world.npcs@, town_residents(*world, t))),
        ensures
            final(statistics).town_economies@.len() == world.towns@.len(),
            forall|t: int|
                0 <= t < world.towns@.len() ==> town_statistics_ok(*world, t, #[trigger] final(statistics).town_economies@[t]),
            *final(statistics) == economy_totals(
                YearStatistics { town_economies: final(statistics).town_economies, ..*old(statistics) },
                final(statistics).town_economies@,
            ),
    {
        let economies = world.town_economic_statistics();
        let mut gross: u64 = 0;
        let mut trade: u64 = 0;
        let mut transactions: u64 = 0;
        let mut transfers: u64 = 0;
        let mut k: usize = 0;
        while k < economies.len()
            invariant
                k <= economies@.len(),
                gross == saturating_total(economies@.take(k as int).map_values(|e: TownEconomicStatistics| e.gross_product_cents)),
                trade == saturating_total(economies@.take(k as int).map_values(|e: TownEconomicStatistics| e.trade_volume_cents)),
                transactions == saturating_total(economies@.take(k as int).map_values(|e: TownEconomicStatistics| e.transactions)),
                transfers == saturating_total(economies@.take(k as int).map_values(|e: TownEconomicStatistics| e.transfers)),
            decreases economies.len() - k,
        {
            let entry = &economies[k];
            proof {
                let next = economies@.take(k as int + 1);
                assert(economies@.take(k as int) =~= next.drop_last());
                assert(next.map_values(|e: TownEconomicStatistics| e.gross_product_cents).drop_last()
                    =~= economies@.take(k as int).map_values(|e: TownEconomicStatistics| e.gross_product_cents));
                assert(next.map_values(|e: TownEconomicStatistics| e.trade_volume_cents).drop_last()
                    =~= economies@.take(k as int).map_values(|e: TownEconomicStatistics| e.trade_volume_cents));
                assert(next.map_values(|e: TownEconomicStatistics| e.transactions).drop_last()
                    =~= economies@.take(k as int).map_values(|e: TownEconomicStatistics| e.transactions));
                assert(next.map_values(|e: TownEconomicStatistics| e.transfers).drop_last()
                    =~= economies@.take(k as int).map_values(|e: TownEconomicStatistics| e.transfers));
            }
            gross = gross.saturating_add(entry.gross_product_cents);
            trade = trade.saturating_add(entry.trade_volume_cents);
            transactions = transactions.saturating_add(entry.transactions);
            transfers = transfers.saturating_add(entry.transfers);
            k = k + 1;
        }
        proof {
            assert(economies@.take(economies@.len() as int) =~= economies@);
        }
        statistics.gross_product_cents = gross;
        statistics.trade_volume_cents = trade;
        statistics.economic_transactions = transactions;
        statistics.money_transfers = transfers;
        statistics.town_economies = economies;
    }
}

} // verus!
