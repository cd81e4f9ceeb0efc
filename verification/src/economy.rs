use vstd::prelude::*;
use vstd::relations::{sorted_by, total_ordering};

use crate::arith::{div_ceil_spec, div_ceil_u64, saturating_mul_spec, saturating_mul_u128, saturating_mul_u64, trunc_div};
use crate::id::{NpcId, TownId};

verus! {

/// Money is held in the smallest unit (1/100 of the currency) to avoid rounding.
pub type Money = u64;

pub const PRICE_INDEX_BASE: u32 = 10_000;
pub const MIN_PRICE_INDEX: u32 = 2_500;
pub const MAX_PRICE_INDEX: u32 = 40_000;

#[derive(Clone, Copy, Debug, PartialEq, Eq, PartialOrd, Ord, Hash, Structural)]
pub enum Good {
    Food,
    Clothing,
    Medicine,
    Tools,
    Luxury,
}

pub open spec fn base_price_spec(good: Good) -> u64 {
    match good {
        Good::Food => 1_200,
        Good::Clothing => 4_000,
        Good::Medicine => 3_000,
        Good::Tools => 6_000,
        Good::Luxury => 12_000,
    }
}

pub open spec fn consumer_weight_spec(good: Good) -> u32 {
    match good {
        Good::Food => 5_000,
        Good::Clothing => 1_500,
        Good::Medicine => 1_500,
        Good::Tools => 1_500,
        Good::Luxury => 500,
    }
}

pub open spec fn good_ordinal_spec(good: Good) -> u64 {
    match good {
        Good::Food => 0,
        Good::Clothing => 1,
        Good::Medicine => 2,
        Good::Tools => 3,
        Good::Luxury => 4,
    }
}

impl Good {
    pub const ALL: [Good; 5] = [Good::Food, Good::Clothing, Good::Medicine, Good::Tools, Good::Luxury];

    pub fn base_price_cents(self) -> (price: Money)
        ensures
            price == base_price_spec(self),
    {
        match self {
            Good::Food => 1_200,
            Good::Clothing => 4_000,
            Good::Medicine => 3_000,
            Good::Tools => 6_000,
            Good::Luxury => 12_000,
        }
    }

    /// Consumption weight used to build the consumer price index (the weights sum to 10000).
    pub fn consumer_weight(self) -> (weight: u32)
        ensures
            weight == consumer_weight_spec(self),
    {
        match self {
            Good::Food => 5_000,
            Good::Clothing => 1_500,
            Good::Medicine => 1_500,
            Good::Tools => 1_500,
            Good::Luxury => 500,
        }
    }

    pub fn ordinal(self) -> (ordinal: u64)
        ensures
            ordinal == good_ordinal_spec(self),
    {
        match self {
            Good::Food => 0,
            Good::Clothing => 1,
            Good::Medicine => 2,
            Good::Tools => 3,
            Good::Luxury => 4,
        }
    }
}

/// Price change from `previous` to `current` in basis points (100bp = 1%), with a
/// zero previous index read as one; negative values are deflation.
pub open spec fn price_change_spec(current: u32, previous: u32) -> int {
    let previous = if previous == 0 {
        1int
    } else {
        previous as int
    };
    clamp_spec(trunc_div((current - previous) * 10_000, previous), i32::MIN as int, i32::MAX as int)
}

#[derive(Clone, Copy, Debug, PartialEq, Eq, Structural)]
pub struct CommodityMarket {
    pub price_index: u32,
    pub previous_year_price_index: u32,
    pub annual_quantity: u64,
    pub annual_trade_volume_cents: Money,
    /// 100bp = 1%. Negative values are bad harvests or supply disruptions, positive
    /// values good harvests or better technique.
    pub annual_supply_shock_basis_points: i32,
}

impl CommodityMarket {
    pub open spec fn fresh() -> CommodityMarket {
        CommodityMarket {
            price_index: PRICE_INDEX_BASE,
            previous_year_price_index: PRICE_INDEX_BASE,
            annual_quantity: 0,
            annual_trade_volume_cents: 0,
            annual_supply_shock_basis_points: 0,
        }
    }

    /// The market at the start of a new year: last year's index is remembered (a zero
    /// index as one) and the yearly quantities are reset.
    pub open spec fn year_reset(self) -> CommodityMarket {
        CommodityMarket {
            previous_year_price_index: if self.price_index == 0 {
                1
            } else {
                self.price_index
            },
            annual_quantity: 0,
            annual_trade_volume_cents: 0,
            ..self
        }
    }

    pub fn new() -> (market: Self)
        ensures
            market == CommodityMarket::fresh(),
    {
        CommodityMarket {
            price_index: PRICE_INDEX_BASE,
            previous_year_price_index: PRICE_INDEX_BASE,
            annual_quantity: 0,
            annual_trade_volume_cents: 0,
            annual_supply_shock_basis_points: 0,
        }
    }

    pub fn inflation_basis_points(&self) -> (change: i32)
        ensures
            change == price_change_spec(self.price_index, self.previous_year_price_index),
    {
        price_change_basis_points(self.price_index, self.previous_year_price_index)
    }
}

impl Default for CommodityMarket {
    fn default() -> (market: Self)
        ensures
            market == CommodityMarket::fresh(),
    {
        CommodityMarket::new()
    }
}

/// One commodity market per good.
#[derive(Clone, Copy, Debug, PartialEq, Eq, Structural)]
pub struct Markets {
    pub food: CommodityMarket,
    pub clothing: CommodityMarket,
    pub medicine: CommodityMarket,
    pub tools: CommodityMarket,
    pub luxury: CommodityMarket,
}

impl Markets {
    pub open spec fn market(&self, good: Good) -> CommodityMarket {
        match good {
            Good::Food => self.food,
            Good::Clothing => self.clothing,
            Good::Medicine => self.medicine,
            Good::Tools => self.tools,
            Good::Luxury => self.luxury,
        }
    }

    pub open spec fn fresh() -> Markets {
        Markets {
            food: CommodityMarket::fresh(),
            clothing: CommodityMarket::fresh(),
            medicine: CommodityMarket::fresh(),
            tools: CommodityMarket::fresh(),
            luxury: CommodityMarket::fresh(),
        }
    }

    pub open spec fn with_market(self, good: Good, market: CommodityMarket) -> Markets {
        match good {
            Good::Food => Markets { food: market, ..self },
            Good::Clothing => Markets { clothing: market, ..self },
            Good::Medicine => Markets { medicine: market, ..self },
            Good::Tools => Markets { tools: market, ..self },
            Good::Luxury => Markets { luxury: market, ..self },
        }
    }

    /// A fresh market at the base price for every good.
    pub fn new() -> (markets: Self)
        ensures
            markets == Markets::fresh(),
            forall|good: Good| #[trigger] markets.market(good) == CommodityMarket::fresh(),
    {
        Markets {
            food: CommodityMarket::new(),
            clothing: CommodityMarket::new(),
            medicine: CommodityMarket::new(),
            tools: CommodityMarket::new(),
            luxury: CommodityMarket::new(),
        }
    }

    pub fn get(&self, good: Good) -> (market: CommodityMarket)
        ensures
            market == self.market(good),
    {
        match good {
            Good::Food => self.food,
            Good::Clothing => self.clothing,
            Good::Medicine => self.medicine,
            Good::Tools => self.tools,
            Good::Luxury => self.luxury,
        }
    }

    pub fn set(&mut self, good: Good, market: CommodityMarket)
        ensures
            *final(self) == old(self).with_market(good, market),
    {
        match good {
            Good::Food => self.food = market,
            Good::Clothing => self.clothing = market,
            Good::Medicine => self.medicine = market,
            Good::Tools => self.tools = market,
            Good::Luxury => self.luxury = market,
        }
    }
}

/// Goods held by an NPC or a player: a count per good.
#[derive(Clone, Copy, Debug, Default, PartialEq, Eq, Structural)]
pub struct Inventory {
    food: u32,
    clothing: u32,
    medicine: u32,
    tools: u32,
    luxury: u32,
}

impl Inventory {
    pub closed spec fn count(&self, good: Good) -> u32 {
        match good {
            Good::Food => self.food,
            Good::Clothing => self.clothing,
            Good::Medicine => self.medicine,
            Good::Tools => self.tools,
            Good::Luxury => self.luxury,
        }
    }

    /// The inventory that holds nothing.
    pub closed spec fn nothing() -> Inventory {
        Inventory { food: 0, clothing: 0, medicine: 0, tools: 0, luxury: 0 }
    }

    /// This inventory with every good of `other` added, each count saturating.
    pub closed spec fn merged(self, other: Inventory) -> Inventory {
        Inventory {
            food: self.food.saturating_add(other.food),
            clothing: self.clothing.saturating_add(other.clothing),
            medicine: self.medicine.saturating_add(other.medicine),
            tools: self.tools.saturating_add(other.tools),
            luxury: self.luxury.saturating_add(other.luxury),
        }
    }

    pub fn empty() -> (inventory: Self)
        ensures
            inventory == Inventory::nothing(),
            forall|good: Good| #[trigger] inventory.count(good) == 0,
    {
        Inventory { food: 0, clothing: 0, medicine: 0, tools: 0, luxury: 0 }
    }

    pub fn quantity(&self, good: Good) -> (quantity: u32)
        ensures
            quantity == self.count(good),
    {
        match good {
            Good::Food => self.food,
            Good::Clothing => self.clothing,
            Good::Medicine => self.medicine,
            Good::Tools => self.tools,
            Good::Luxury => self.luxury,
        }
    }

    fn set_quantity(&mut self, good: Good, quantity: u32)
        ensures
            final(self).count(good) == quantity,
            forall|other: Good| other != good ==> #[trigger] final(self).count(other) == old(self).count(other),
    {
        match good {
            Good::Food => self.food = quantity,
            Good::Clothing => self.clothing = quantity,
            Good::Medicine => self.medicine = quantity,
            Good::Tools => self.tools = quantity,
            Good::Luxury => self.luxury = quantity,
        }
    }

    /// Adds goods; the count saturates at `u32::MAX`.
    pub fn add(&mut self, good: Good, quantity: u32)
        ensures
            final(self).count(good) == old(self).count(good).saturating_add(quantity),
            forall|other: Good| other != good ==> #[trigger] final(self).count(other) == old(self).count(other),
    {
        if quantity == 0 {
            return;
        }
        let current = self.quantity(good);
        self.set_quantity(good, current.saturating_add(quantity));
    }

    /// Adds every good of `other`; each count saturates at `u32::MAX`.
    pub fn merge(&mut self, other: &Inventory)
        ensures
            *final(self) == old(self).merged(*other),
            forall|good: Good| #[trigger] final(self).count(good) == old(self).count(good).saturating_add(other.count(good)),
    {
        self.add(Good::Food, other.food);
        self.add(Good::Clothing, other.clothing);
        self.add(Good::Medicine, other.medicine);
        self.add(Good::Tools, other.tools);
        self.add(Good::Luxury, other.luxury);
        proof {
            assert forall|good: Good| #[trigger] self.count(good) == old(self).count(good).saturating_add(other.count(good)) by {
                match good {
                    Good::Food => {},
                    Good::Clothing => {},
                    Good::Medicine => {},
                    Good::Tools => {},
                    Good::Luxury => {},
                }
            }
            assert(self.count(Good::Food) == old(self).count(Good::Food).saturating_add(other.count(Good::Food)));
            assert(self.count(Good::Clothing) == old(self).count(Good::Clothing).saturating_add(other.count(Good::Clothing)));
            assert(self.count(Good::Medicine) == old(self).count(Good::Medicine).saturating_add(other.count(Good::Medicine)));
            assert(self.count(Good::Tools) == old(self).count(Good::Tools).saturating_add(other.count(Good::Tools)));
            assert(self.count(Good::Luxury) == old(self).count(Good::Luxury).saturating_add(other.count(Good::Luxury)));
        }
    }

    /// Removes goods when enough are held; otherwise nothing changes. Returns whether
    /// the goods were removed.
    pub fn remove(&mut self, good: Good, quantity: u32) -> (removed: bool)
        ensures
            removed == (quantity <= old(self).count(good)),
            removed ==> final(self).count(good) == old(self).count(good) - quantity,
            !removed ==> *final(self) == *old(self),
            forall|other: Good| other != good ==> #[trigger] final(self).count(other) == old(self).count(other),
    {
        if quantity == 0 {
            return true;
        }
        let current = self.quantity(good);
        if current < quantity {
            return false;
        }
        self.set_quantity(good, current - quantity);
        true
    }

    /// The goods held, as `(good, quantity)` pairs with a nonzero quantity, in ascending
    /// good order.
    pub fn iter(&self) -> (entries: Vec<(Good, u32)>)
        ensures
            entries@ == self.entries_spec(),
            forall|i: int|
                0 <= i < entries@.len() ==> (#[trigger] entries@[i]).1 == self.count(entries@[i].0) && entries@[i].1 > 0,
            forall|good: Good|
                self.count(good) > 0 ==> exists|i: int| 0 <= i < entries@.len() && #[trigger] entries@[i].0 == good,
            forall|i: int, j: int|
                0 <= i < j < entries@.len() ==> good_ordinal_spec(#[trigger] entries@[i].0) < good_ordinal_spec(
                    #[trigger] entries@[j].0,
                ),
    {
        proof {
            self.lemma_entries();
        }
        let mut entries: Vec<(Good, u32)> = Vec::new();
        if self.food > 0 {
            entries.push((Good::Food, self.food));
        }
        if self.clothing > 0 {
            entries.push((Good::Clothing, self.clothing));
        }
        if self.medicine > 0 {
            entries.push((Good::Medicine, self.medicine));
        }
        if self.tools > 0 {
            entries.push((Good::Tools, self.tools));
        }
        if self.luxury > 0 {
            entries.push((Good::Luxury, self.luxury));
        }
        proof {
            assert(entries@ == self.entries_spec());
            assert forall|good: Good| self.count(good) > 0 implies exists|i: int|
                0 <= i < entries@.len() && #[trigger] entries@[i].0 == good by {
                let i = choose|i: int| 0 <= i < self.entries_spec().len() && #[trigger] self.entries_spec()[i].0 == good;
                assert(entries@[i].0 == good);
            }
        }
        entries
    }

    pub closed spec fn entries_spec(&self) -> Seq<(Good, u32)> {
        let a = if self.food > 0 { seq![(Good::Food, self.food)] } else { seq![] };
        let b = if self.clothing > 0 { seq![(Good::Clothing, self.clothing)] } else { seq![] };
        let c = if self.medicine > 0 { seq![(Good::Medicine, self.medicine)] } else { seq![] };
        let d = if self.tools > 0 { seq![(Good::Tools, self.tools)] } else { seq![] };
        let e = if self.luxury > 0 { seq![(Good::Luxury, self.luxury)] } else { seq![] };
        a + b + c + d + e
    }

    /// The listed entries are exactly the goods held in a nonzero quantity.
    pub proof fn lemma_entries(&self)
        ensures
            forall|i: int| 0 <= i < self.entries_spec().len() ==>
                (#[trigger] self.entries_spec()[i]).1 == self.count(self.entries_spec()[i].0)
                && self.entries_spec()[i].1 > 0,
            forall|good: Good| self.count(good) > 0 ==> exists|i: int|
                0 <= i < self.entries_spec().len() && #[trigger] self.entries_spec()[i].0 == good,
            forall|i: int, j: int|
                0 <= i < j < self.entries_spec().len() ==> good_ordinal_spec(#[trigger] self.entries_spec()[i].0)
                    < good_ordinal_spec(#[trigger] self.entries_spec()[j].0),
    {
        let a = if self.food > 0 { seq![(Good::Food, self.food)] } else { seq![] };
        let b = if self.clothing > 0 { seq![(Good::Clothing, self.clothing)] } else { seq![] };
        let c = if self.medicine > 0 { seq![(Good::Medicine, self.medicine)] } else { seq![] };
        let d = if self.tools > 0 { seq![(Good::Tools, self.tools)] } else { seq![] };
        let e = if self.luxury > 0 { seq![(Good::Luxury, self.luxury)] } else { seq![] };
        assert(self.entries_spec() == a + b + c + d + e);
        assert forall|good: Good| self.count(good) > 0 implies exists|i: int|
            0 <= i < self.entries_spec().len() && #[trigger] self.entries_spec()[i].0 == good by {
            let s = self.entries_spec();
            match good {
                Good::Food => {
                    assert(s[0].0 == good);
                },
                Good::Clothing => {
                    assert(s[a.len() as int].0 == good);
                },
                Good::Medicine => {
                    assert(s[(a.len() + b.len()) as int].0 == good);
                },
                Good::Tools => {
                    assert(s[(a.len() + b.len() + c.len()) as int].0 == good);
                },
                Good::Luxury => {
                    assert(s[(a.len() + b.len() + c.len() + d.len()) as int].0 == good);
                },
            }
        }
    }
}

/// The consumer price index computed from the per-good indices and the consumption
/// weights, clamped into `MIN_PRICE_INDEX..=MAX_PRICE_INDEX`.
pub open spec fn consumer_price_index_spec(markets: Markets) -> int {
    let weighted = markets.food.price_index * 5_000int + markets.clothing.price_index * 1_500int
        + markets.medicine.price_index * 1_500int + markets.tools.price_index * 1_500int
        + markets.luxury.price_index * 500int;
    clamp_spec(weighted / 10_000, MIN_PRICE_INDEX as int, MAX_PRICE_INDEX as int)
}

pub open spec fn clamp_spec(value: int, lo: int, hi: int) -> int {
    if value < lo {
        lo
    } else if value > hi {
        hi
    } else {
        value
    }
}

/// `base` scaled by a price index whose base is 10000, rounded up.
pub open spec fn indexed_price_spec(base: u64, index: u32) -> int {
    div_ceil_spec(saturating_mul_spec(base, index as u64) as int, PRICE_INDEX_BASE as int)
}

/// Market and treasury state held by a town. Yearly flows are reset at the start of a year.
#[derive(Clone, Copy, Debug, PartialEq, Eq, Structural)]
pub struct TownEconomy {
    pub treasury_cents: Money,
    /// Consumer price index with base 10000.
    pub price_index: u32,
    pub previous_year_price_index: u32,
    /// Productivity with base 10000.
    pub productivity_index: u32,
    pub annual_output_cents: Money,
    pub annual_trade_volume_cents: Money,
    pub annual_transactions: u64,
    pub annual_transfers: u64,
    pub labor_force: usize,
    pub employed: usize,
    pub markets: Markets,
}

impl TownEconomy {
    pub fn new(wealth: u8, population_capacity: u32) -> (economy: Self)
        ensures
            economy == TownEconomy::new_spec(wealth, population_capacity),
    {
        let wealth: u8 = if wealth > 10 {
            10
        } else {
            wealth
        };
        let per_person: u64 = 30_000 + wealth as u64 * 5_000;
        proof {
            assert(population_capacity * per_person <= u64::MAX) by (nonlinear_arith)
                requires
                    population_capacity <= u32::MAX,
                    per_person <= 80_000,
            ;
        }
        TownEconomy {
            treasury_cents: population_capacity as u64 * per_person,
            price_index: PRICE_INDEX_BASE,
            previous_year_price_index: PRICE_INDEX_BASE,
            productivity_index: 7_500 + wealth as u32 * 500,
            annual_output_cents: 0,
            annual_trade_volume_cents: 0,
            annual_transactions: 0,
            annual_transfers: 0,
            labor_force: 0,
            employed: 0,
            markets: Markets::new(),
        }
    }

    /// Starts a new year: the yearly flows are reset and every price index is
    /// remembered as last year's (a zero index is remembered as one).
    pub fn begin_year(&mut self)
        ensures
            *final(self) == old(self).year_reset(),
            final(self).treasury_cents == old(self).treasury_cents,
            final(self).price_index == old(self).price_index,
            final(self).previous_year_price_index == (if old(self).price_index == 0 {
                1
            } else {
                old(self).price_index
            }),
            final(self).productivity_index == old(self).productivity_index,
            final(self).annual_output_cents == 0,
            final(self).annual_trade_volume_cents == 0,
            final(self).annual_transactions == 0,
            final(self).annual_transfers == 0,
            final(self).labor_force == 0,
            final(self).employed == 0,
            forall|good: Good| #[trigger] final(self).markets.market(good) == (CommodityMarket {
                previous_year_price_index: if old(self).markets.market(good).price_index == 0 {
                    1
                } else {
                    old(self).markets.market(good).price_index
                },
                annual_quantity: 0,
                annual_trade_volume_cents: 0,
                ..old(self).markets.market(good)
            }),
    {
        self.previous_year_price_index = if self.price_index == 0 {
            1
        } else {
            self.price_index
        };
        self.annual_output_cents = 0;
        self.annual_trade_volume_cents = 0;
        self.annual_transactions = 0;
        self.annual_transfers = 0;
        self.labor_force = 0;
        self.employed = 0;
        self.markets.food = reset_market_year(self.markets.food);
        self.markets.clothing = reset_market_year(self.markets.clothing);
        self.markets.medicine = reset_market_year(self.markets.medicine);
        self.markets.tools = reset_market_year(self.markets.tools);
        self.markets.luxury = reset_market_year(self.markets.luxury);
    }

    /// The economy at the start of a new year: every yearly flow is reset and each
    /// price index is remembered as last year's.
    pub open spec fn year_reset(self) -> TownEconomy {
        TownEconomy {
            previous_year_price_index: if self.price_index == 0 {
                1
            } else {
                self.price_index
            },
            annual_output_cents: 0,
            annual_trade_volume_cents: 0,
            annual_transactions: 0,
            annual_transfers: 0,
            labor_force: 0,
            employed: 0,
            markets: Markets {
                food: self.markets.food.year_reset(),
                clothing: self.markets.clothing.year_reset(),
                medicine: self.markets.medicine.year_reset(),
                tools: self.markets.tools.year_reset(),
                luxury: self.markets.luxury.year_reset(),
            },
            ..self
        }
    }

    /// `base_cents` at the town's consumer price index, rounded up.
    pub fn indexed_price(&self, base_cents: Money) -> (price: Money)
        ensures
            price == indexed_price_spec(base_cents, self.price_index),
    {
        div_ceil_u64(saturating_mul_u64(base_cents, self.price_index as u64), PRICE_INDEX_BASE as u64)
    }

    pub fn inflation_basis_points(&self) -> (change: i32)
        ensures
            change == price_change_spec(self.price_index, self.previous_year_price_index),
    {
        price_change_basis_points(self.price_index, self.previous_year_price_index)
    }

    pub fn good_price_index(&self, good: Good) -> (index: u32)
        ensures
            index == self.markets.market(good).price_index,
    {
        self.markets.get(good).price_index
    }

    /// Unit price of a good: its base price at the good's own price index, rounded up.
    pub fn good_price(&self, good: Good) -> (price: Money)
        ensures
            price == indexed_price_spec(base_price_spec(good), self.markets.market(good).price_index),
    {
        div_ceil_u64(
            saturating_mul_u64(good.base_price_cents(), self.good_price_index(good) as u64),
            PRICE_INDEX_BASE as u64,
        )
    }

    /// The economy after one recorded trade of `quantity` units for `volume_cents`.
    pub open spec fn traded(self, good: Good, quantity: u64, volume_cents: Money) -> TownEconomy {
        TownEconomy {
            markets: self.markets.with_market(
                good,
                CommodityMarket {
                    annual_quantity: self.markets.market(good).annual_quantity.saturating_add(quantity),
                    annual_trade_volume_cents: self.markets.market(good).annual_trade_volume_cents.saturating_add(
                        volume_cents,
                    ),
                    ..self.markets.market(good)
                },
            ),
            annual_trade_volume_cents: self.annual_trade_volume_cents.saturating_add(volume_cents),
            annual_transactions: self.annual_transactions.saturating_add(1),
            ..self
        }
    }

    /// Records one trade of `quantity` units for `volume_cents`; every counter saturates.
    pub fn record_good_trade(&mut self, good: Good, quantity: u64, volume_cents: Money)
        ensures
            *final(self) == old(self).traded(good, quantity, volume_cents),
            final(self).markets == old(self).markets.with_market(
                good,
                CommodityMarket {
                    annual_quantity: old(self).markets.market(good).annual_quantity.saturating_add(
                        quantity,
                    ),
                    annual_trade_volume_cents: old(
                        self,
                    ).markets.market(good).annual_trade_volume_cents.saturating_add(volume_cents),
                    ..old(self).markets.market(good)
                },
            ),
            final(self).annual_trade_volume_cents == old(self).annual_trade_volume_cents.saturating_add(volume_cents),
            final(self).annual_transactions == old(self).annual_transactions.saturating_add(1),
            final(self).treasury_cents == old(self).treasury_cents,
            final(self).price_index == old(self).price_index,
            final(self).previous_year_price_index == old(self).previous_year_price_index,
            final(self).productivity_index == old(self).productivity_index,
            final(self).annual_output_cents == old(self).annual_output_cents,
            final(self).annual_transfers == old(self).annual_transfers,
            final(self).labor_force == old(self).labor_force,
            final(self).employed == old(self).employed,
    {
        let mut market = self.markets.get(good);
        market.annual_quantity = market.annual_quantity.saturating_add(quantity);
        market.annual_trade_volume_cents = market.annual_trade_volume_cents.saturating_add(volume_cents);
        self.markets.set(good, market);
        self.annual_trade_volume_cents = self.annual_trade_volume_cents.saturating_add(volume_cents);
        self.annual_transactions = self.annual_transactions.saturating_add(1);
    }

    /// Recomputes the consumer price index as the weighted average of the good indices.
    pub fn update_consumer_price_index(&mut self)
        ensures
            *final(self) == (TownEconomy {
                price_index: consumer_price_index_spec(old(self).markets) as u32,
                ..*old(self)
            }),
    {
        let weighted: u64 = self.markets.food.price_index as u64 * 5_000
            + self.markets.clothing.price_index as u64 * 1_500
            + self.markets.medicine.price_index as u64 * 1_500
            + self.markets.tools.price_index as u64 * 1_500
            + self.markets.luxury.price_index as u64 * 500;
        let average: u64 = weighted / 10_000;
        let bounded: u64 = if average < MIN_PRICE_INDEX as u64 {
            MIN_PRICE_INDEX as u64
        } else if average > MAX_PRICE_INDEX as u64 {
            MAX_PRICE_INDEX as u64
        } else {
            average
        };
        self.price_index = bounded as u32;
    }

    /// Unemployed share of the labor force in basis points; zero without a labor force.
    pub fn unemployment_basis_points(&self) -> (rate: u32)
        ensures
            self.labor_force == 0 ==> rate == 0,
            self.labor_force > 0 ==> rate == (if self.employed >= self.labor_force {
                0int
            } else {
                self.labor_force - self.employed
            }) * 10_000 / (self.labor_force as int),
    {
        if self.labor_force == 0 {
            return 0;
        }
        let unemployed: usize = self.labor_force.saturating_sub(self.employed);
        proof {
            assert(unemployed as int * 10_000 / (self.labor_force as int) <= 10_000) by (nonlinear_arith)
                requires
                    unemployed <= self.labor_force,
                    self.labor_force > 0,
            ;
        }
        ((unemployed as u128 * 10_000) / self.labor_force as u128) as u32
    }
}

fn reset_market_year(market: CommodityMarket) -> (reset: CommodityMarket)
    ensures
        reset == (CommodityMarket {
            previous_year_price_index: if market.price_index == 0 {
                1
            } else {
                market.price_index
            },
            annual_quantity: 0,
            annual_trade_volume_cents: 0,
            ..market
        }),
{
    CommodityMarket {
        previous_year_price_index: if market.price_index == 0 {
            1
        } else {
            market.price_index
        },
        annual_quantity: 0,
        annual_trade_volume_cents: 0,
        ..market
    }
}

fn price_change_basis_points(current: u32, previous: u32) -> (change: i32)
    ensures
        change == price_change_spec(current, previous),
{
    let previous: i64 = if previous == 0 {
        1
    } else {
        previous as i64
    };
    let change: i64 = current as i64 - previous;
    let scaled: i64 = change * 10_000;
    let quotient: i64 = if scaled >= 0 {
        scaled / previous
    } else {
        -((-scaled) / previous)
    };
    if quotient > i32::MAX as i64 {
        i32::MAX
    } else if quotient < i32::MIN as i64 {
        i32::MIN
    } else {
        quotient as i32
    }
}

impl Default for TownEconomy {
    fn default() -> (economy: Self)
        ensures
            economy == TownEconomy::new_spec(5, 1),
    {
        TownEconomy::new(5, 1)
    }
}

impl TownEconomy {
    pub open spec fn new_spec(wealth: u8, population_capacity: u32) -> TownEconomy {
        let wealth: int = if wealth > 10 {
            10
        } else {
            wealth as int
        };
        TownEconomy {
            treasury_cents: (population_capacity * (30_000 + wealth * 5_000)) as u64,
            price_index: PRICE_INDEX_BASE,
            previous_year_price_index: PRICE_INDEX_BASE,
            productivity_index: (7_500 + wealth * 500) as u32,
            annual_output_cents: 0,
            annual_trade_volume_cents: 0,
            annual_transactions: 0,
            annual_transfers: 0,
            labor_force: 0,
            employed: 0,
            markets: Markets::fresh(),
        }
    }
}

#[derive(Clone, Copy, Debug, PartialEq, Eq, Structural)]
pub struct TransactionReceipt {
    pub buyer: NpcId,
    pub seller: NpcId,
    pub good: Good,
    pub quantity: u32,
    pub total_cents: Money,
}

#[derive(Clone, Copy, Debug, PartialEq, Eq, Structural)]
pub struct TransferReceipt {
    pub from: NpcId,
    pub to: NpcId,
    pub amount_cents: Money,
}

#[derive(Clone, Debug, PartialEq, Eq)]
pub struct TownEconomicStatistics {
    pub town: TownId,
    pub gross_product_cents: Money,
    pub trade_volume_cents: Money,
    pub transactions: u64,
    pub transfers: u64,
    pub resident_wealth_cents: Money,
    pub treasury_cents: Money,
    /// GDP, resident wealth and treasury combined, for comparing towns.
    pub economic_power_cents: Money,
    pub price_index: u32,
    /// 100bp = 1%; negative values are deflation.
    pub inflation_basis_points: i32,
    pub labor_force: usize,
    pub employed: usize,
    pub unemployment_basis_points: u32,
    /// 0 (perfect equality) ..= 10000 (maximal inequality).
    pub gini_basis_points: u32,
    pub goods: Vec<GoodPriceStatistics>,
}

#[derive(Clone, Copy, Debug, PartialEq, Eq, Structural)]
pub struct GoodPriceStatistics {
    pub good: Good,
    pub unit_price_cents: Money,
    pub price_index: u32,
    pub inflation_basis_points: i32,
    pub annual_quantity: u64,
    pub annual_trade_volume_cents: Money,
    pub supply_shock_basis_points: i32,
}

#[derive(Clone, Copy, Debug, PartialEq, Eq, Structural)]
pub enum EconomyError {
    InvalidNpc(NpcId),
    InactiveNpc(NpcId),
    SameNpc(NpcId),
    ZeroAmount,
    InsufficientFunds { npc: NpcId, required: Money, available: Money },
    InsufficientInventory { npc: NpcId, good: Good, required: u32, available: u32 },
    AmountOverflow,
}

/// The order in which wealth values are ranked.
pub open spec fn value_leq() -> spec_fn(u64, u64) -> bool {
    |a: u64, b: u64| a <= b
}

pub open spec fn seq_sum(s: Seq<u64>) -> int
    decreases s.len(),
{
    if s.len() == 0 {
        0
    } else {
        seq_sum(s.drop_last()) + s.last()
    }
}

/// Sum of `(i + 1) * s[i]`.
pub open spec fn rank_weighted_sum(s: Seq<u64>) -> int
    decreases s.len(),
{
    if s.len() == 0 {
        0
    } else {
        rank_weighted_sum(s.drop_last()) + s.len() * s.last()
    }
}

pub open spec fn saturate_u128(value: int) -> int {
    if value > u128::MAX {
        u128::MAX as int
    } else {
        value
    }
}

/// Numerator and denominator terms of the Gini coefficient of ascending values.
pub open spec fn gini_numerator(s: Seq<u64>) -> int {
    saturate_u128(2 * rank_weighted_sum(s))
}

pub open spec fn gini_adjustment(s: Seq<u64>) -> int {
    saturate_u128((s.len() + 1) * seq_sum(s))
}

/// Gini coefficient of ascending values in basis points, with integer arithmetic.
pub open spec fn gini_of_sorted(s: Seq<u64>) -> int {
    let n = s.len() as int;
    let total = seq_sum(s);
    if n == 0 || total == 0 {
        0
    } else if gini_numerator(s) <= gini_adjustment(s) {
        0
    } else {
        let g = (gini_numerator(s) - gini_adjustment(s)) * 10_000 / (n * total);
        if g > 10_000 {
            10_000
        } else {
            g
        }
    }
}

/// Gini coefficient in basis points of the values, taken in ascending order.
pub open spec fn gini_spec(values: Seq<u64>) -> int {
    gini_of_sorted(values.sort_by(value_leq()))
}

/// The integer terms of the Gini computation fit in 128 bits.
pub open spec fn gini_terms_fit(values: Seq<u64>) -> bool {
    let s = values.sort_by(value_leq());
    &&& rank_weighted_sum(s) <= u128::MAX
    &&& s.len() * seq_sum(s) <= u128::MAX
    &&& gini_numerator(s) > gini_adjustment(s) ==> (gini_numerator(s) - gini_adjustment(s)) * 10_000
        <= u128::MAX
}

proof fn lemma_value_leq_total()
    ensures
        total_ordering(value_leq()),
{
}

/// The Gini computation stays within 128 bits: the number of values times their total,
/// times 10_000, fits (the values taken in ascending order, as the computation takes
/// them).
pub open spec fn gini_fits(values: Seq<u64>) -> bool {
    let s = values.sort_by(value_leq());
    s.len() * seq_sum(s) * 10_000 <= u128::MAX
}

proof fn lemma_rank_sum_bounded(s: Seq<u64>)
    ensures
        0 <= seq_sum(s),
        rank_weighted_sum(s) <= s.len() * seq_sum(s),
    decreases s.len(),
{
    if s.len() > 0 {
        let rest = s.drop_last();
        lemma_rank_sum_bounded(rest);
        let n = s.len() as int;
        assert(rank_weighted_sum(s) <= n * seq_sum(s)) by (nonlinear_arith)
            requires
                rank_weighted_sum(s) == rank_weighted_sum(rest) + n * s.last(),
                seq_sum(s) == seq_sum(rest) + s.last(),
                rank_weighted_sum(rest) <= (n - 1) * seq_sum(rest),
                0 <= seq_sum(rest),
                0 <= s.last(),
                n >= 1,
        ;
    }
}

/// Where the count times the total, times 10_000, fits in 128 bits, so do all the terms of
/// the Gini computation.
pub proof fn lemma_gini_fits(values: Seq<u64>)
    requires
        gini_fits(values),
    ensures
        gini_terms_fit(values),
{
    let s = values.sort_by(value_leq());
    let n = s.len() as int;
    let total = seq_sum(s);
    lemma_rank_sum_bounded(s);
    let rank = rank_weighted_sum(s);
    assert(n * total <= u128::MAX && 2 * n * total <= u128::MAX && n * total + total <= u128::MAX) by (nonlinear_arith)
        requires
            n * total * 10_000 <= u128::MAX,
            0 <= n,
            0 <= total,
            n == 0 ==> total == 0,
    ;
    assert(gini_numerator(s) == 2 * rank);
    assert((n + 1) * total == n * total + total) by (nonlinear_arith);
    assert(gini_adjustment(s) == (n + 1) * total);
    assert(2 * rank - (n + 1) * total <= n * total);
    assert((2 * rank - (n + 1) * total) * 10_000 <= u128::MAX) by (nonlinear_arith)
        requires
            2 * rank - (n + 1) * total <= n * total,
            n * total * 10_000 <= u128::MAX,
    ;
}

proof fn lemma_sums_of_prefix(s: Seq<u64>, i: int)
    requires
        0 <= i < s.len(),
    ensures
        seq_sum(s.take(i + 1)) == seq_sum(s.take(i)) + s[i],
        rank_weighted_sum(s.take(i + 1)) == rank_weighted_sum(s.take(i)) + (i + 1) * s[i],
{
    assert(s.take(i + 1).drop_last() =~= s.take(i));
}

proof fn lemma_prefix_sums_bounded(s: Seq<u64>, i: int)
    requires
        0 <= i <= s.len(),
    ensures
        0 <= seq_sum(s.take(i)) <= seq_sum(s),
        0 <= rank_weighted_sum(s.take(i)) <= rank_weighted_sum(s),
        seq_sum(s.take(i)) <= i * u64::MAX,
    decreases s.len() - i,
{
    if i == s.len() {
        assert(s.take(i) =~= s);
        lemma_sum_bounded(s);
    } else {
        lemma_prefix_sums_bounded(s, i + 1);
        lemma_sums_of_prefix(s, i);
        assert(0 <= (i + 1) * s[i]) by (nonlinear_arith)
            requires
                i >= 0,
                s[i] >= 0,
        ;
        lemma_sum_bounded(s.take(i));
    }
}

proof fn lemma_sum_bounded(s: Seq<u64>)
    ensures
        0 <= seq_sum(s) <= s.len() * u64::MAX,
        0 <= rank_weighted_sum(s),
    decreases s.len(),
{
    if s.len() > 0 {
        lemma_sum_bounded(s.drop_last());
        assert(0 <= s.len() * s.last()) by (nonlinear_arith);
        assert((s.len() - 1) * u64::MAX + u64::MAX == s.len() * u64::MAX) by (nonlinear_arith);
    }
}

/// A copy of the values in ascending order.
fn sorted_copy(values: &[u64]) -> (sorted: Vec<u64>)
    ensures
        sorted@ == values@.sort_by(value_leq()),
{
    let mut sorted: Vec<u64> = Vec::new();
    let mut i: usize = 0;
    proof {
        assert(sorted@ =~= values@.take(0));
    }
    while i < values.len()
        invariant
            i <= values.len(),
            sorted_by(sorted@, value_leq()),
            sorted@.to_multiset() == values@.take(i as int).to_multiset(),
        decreases values.len() - i,
    {
        let x = values[i];
        let mut position: usize = 0;
        while position < sorted.len() && sorted[position] <= x
            invariant
                position <= sorted.len(),
                forall|j: int| 0 <= j < position ==> sorted@[j] <= x,
            decreases sorted.len() - position,
        {
            position = position + 1;
        }
        let ghost before = sorted@;
        sorted.insert(position, x);
        proof {
            broadcast use vstd::seq_lib::group_to_multiset_ensures;
            assert(sorted@ == before.insert(position as int, x));
            assert(forall|j: int| position <= j < before.len() ==> x < before[j]) by {
                assert forall|j: int| position <= j < before.len() implies x < before[j] by {
                    if position < before.len() {
                        assert(value_leq()(before[position as int], before[j]) || j == position);
                    }
                }
            }
            assert(sorted_by(sorted@, value_leq())) by {
                assert forall|a: int, b: int| 0 <= a < b < sorted@.len() implies #[trigger] value_leq()(
                    sorted@[a],
                    sorted@[b],
                ) by {
                    if b < position {
                        assert(value_leq()(before[a], before[b]));
                    } else if b == position {
                    } else if a < position {
                        assert(sorted@[b] == before[b - 1]);
                    } else if a == position {
                        assert(sorted@[b] == before[b - 1]);
                    } else {
                        assert(value_leq()(before[a - 1], before[b - 1]));
                    }
                }
            }
            assert(values@.take(i + 1) =~= values@.take(i as int).push(x));
        }
        i = i + 1;
    }
    proof {
        assert(values@.take(values@.len() as int) =~= values@);
        lemma_value_leq_total();
        values@.lemma_sort_by_ensures(value_leq());
        vstd::seq_lib::lemma_sorted_unique(sorted@, values@.sort_by(value_leq()), value_leq());
    }
    sorted
}

/// Gini coefficient of wealth values in basis points, computed with integers.
/// The result does not depend on the order of the values.
pub fn gini_basis_points(values: &[Money]) -> (gini: u32)
    requires
        gini_terms_fit(values@),
    ensures
        gini == gini_spec(values@),
        gini <= 10_000,
{
    if values.len() == 0 {
        proof {
            assert(values@.sort_by(value_leq()).len() == 0) by {
                lemma_value_leq_total();
                values@.lemma_sort_by_ensures(value_leq());
                values@.to_multiset_ensures();
                values@.sort_by(value_leq()).to_multiset_ensures();
            }
        }
        return 0;
    }
    let sorted = sorted_copy(values);
    proof {
        lemma_value_leq_total();
        values@.lemma_sort_by_ensures(value_leq());
        values@.to_multiset_ensures();
        values@.sort_by(value_leq()).to_multiset_ensures();
        assert(sorted@.len() == values@.len());
    }
    let ghost s = sorted@;
    let mut total: u128 = 0;
    let mut weighted: u128 = 0;
    let mut index: usize = 0;
    while index < sorted.len()
        invariant
            s == sorted@,
            gini_terms_fit(values@),
            s == values@.sort_by(value_leq()),
            index <= sorted.len(),
            sorted.len() <= usize::MAX,
            total == seq_sum(s.take(index as int)),
            weighted == rank_weighted_sum(s.take(index as int)),
        decreases sorted.len() - index,
    {
        proof {
            lemma_sums_of_prefix(s, index as int);
            lemma_prefix_sums_bounded(s, index as int + 1);
            assert((index as int + 1) * u64::MAX <= u128::MAX) by (nonlinear_arith)
                requires
                    index < usize::MAX,
            ;
        }
        total = total + sorted[index] as u128;
        weighted = weighted + (index as u128 + 1) * sorted[index] as u128;
        index = index + 1;
    }
    proof {
        assert(s.take(s.len() as int) =~= s);
    }
    if total == 0 {
        return 0;
    }
    let n: u128 = sorted.len() as u128;
    proof {
        assert(n > 0);
        assert(total > 0);
        assert(n * total > 0) by (nonlinear_arith)
            requires
                n > 0,
                total > 0,
        ;
    }
    let numerator: u128 = saturating_mul_u128(weighted, 2);
    let adjustment: u128 = saturating_mul_u128(n + 1, total);
    proof {
        assert(numerator == gini_numerator(s));
        assert(adjustment == gini_adjustment(s));
    }
    if numerator <= adjustment {
        return 0;
    }
    let g: u128 = ((numerator - adjustment) * 10_000) / (n * total);
    if g > 10_000 {
        10_000
    } else {
        g as u32
    }
}

/// Whether the Gini computation of the values stays within 128 bits (`gini_fits`).
pub fn gini_fits_check(values: &[Money]) -> (fits: bool)
    ensures
        fits == gini_fits(values@),
{
    let sorted = sorted_copy(values);
    let ghost s = sorted@;
    let mut total: u128 = 0;
    let mut index: usize = 0;
    while index < sorted.len()
        invariant
            s == sorted@,
            index <= sorted.len(),
            total == seq_sum(s.take(index as int)),
        decreases sorted.len() - index,
    {
        proof {
            lemma_sums_of_prefix(s, index as int);
            lemma_prefix_sums_bounded(s, index as int + 1);
            assert((index as int + 1) * u64::MAX <= u128::MAX) by (nonlinear_arith)
                requires
                    index < usize::MAX,
            ;
        }
        total = total + sorted[index] as u128;
        index = index + 1;
    }
    proof {
        assert(s.take(s.len() as int) =~= s);
    }
    let n: u128 = sorted.len() as u128;
    match n.checked_mul(total) {
        Some(product) => match product.checked_mul(10_000) {
            Some(_) => true,
            None => false,
        },
        None => false,
    }
}

/// The Gini coefficient does not depend on the order of the values.
pub proof fn lemma_gini_order_independent(a: Seq<u64>, b: Seq<u64>)
    requires
        a.to_multiset() == b.to_multiset(),
    ensures
        gini_spec(a) == gini_spec(b),
{
    lemma_value_leq_total();
    a.lemma_sort_by_ensures(value_leq());
    b.lemma_sort_by_ensures(value_leq());
    vstd::seq_lib::lemma_sorted_unique(a.sort_by(value_leq()), b.sort_by(value_leq()), value_leq());
}

proof fn lemma_constant_sums(s: Seq<u64>, c: u64)
    requires
        forall|i: int| 0 <= i < s.len() ==> s[i] == c,
    ensures
        seq_sum(s) == (s.len() as int) * c,
        2 * rank_weighted_sum(s) == (s.len() as int) * ((s.len() as int) + 1) * c,
    decreases s.len(),
{
    if s.len() > 0 {
        lemma_constant_sums(s.drop_last(), c);
        let n = s.len() as int;
        let m = n - 1;
        assert(s.drop_last().len() == m);
        assert(2 * rank_weighted_sum(s.drop_last()) == m * (m + 1) * c);
        assert(s.last() == c);
        assert(rank_weighted_sum(s) == rank_weighted_sum(s.drop_last()) + n * c);
        assert(seq_sum(s) == seq_sum(s.drop_last()) + c);
        assert(m * c + c == n * c) by (nonlinear_arith)
            requires
                m == n - 1,
        ;
        assert(m * (m + 1) * c + 2 * (n * c) == n * (n + 1) * c) by (nonlinear_arith)
            requires
                m == n - 1,
        ;
        assert(2 * rank_weighted_sum(s) == n * (n + 1) * c);
    }
}

/// Perfectly equal wealth has a Gini coefficient of zero.
pub proof fn lemma_gini_of_equal_values(values: Seq<u64>, c: u64)
    requires
        forall|i: int| 0 <= i < values.len() ==> values[i] == c,
    ensures
        gini_spec(values) == 0,
{
    lemma_value_leq_total();
    values.lemma_sort_by_ensures(value_leq());
    let s = values.sort_by(value_leq());
    broadcast use vstd::seq_lib::group_to_multiset_ensures;
    assert forall|i: int| 0 <= i < s.len() implies s[i] == c by {
        assert(s.contains(s[i]));
        assert(values.contains(s[i]));
    }
    lemma_constant_sums(s, c);
    let n = s.len() as int;
    assert(n * (n + 1) * c == (n + 1) * (n * c)) by (nonlinear_arith);
    assert(gini_numerator(s) <= gini_adjustment(s));
}

} // verus!
