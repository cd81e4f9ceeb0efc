use vstd::prelude::*;

use crate::economy::{base_price_spec, indexed_price_spec, Good, Inventory, Money, TownEconomy};
use crate::id::TownId;
use crate::town::Town;
use crate::world::{town_at, World};

verus! {

#[derive(Clone, Copy, Debug, PartialEq, Eq, Structural)]
pub enum PlayerTradeSide {
    Buy,
    Sell,
}

#[derive(Clone, Copy, Debug, PartialEq, Eq, Structural)]
pub struct PlayerTradeReceipt {
    pub side: PlayerTradeSide,
    pub town: TownId,
    pub good: Good,
    pub quantity: u32,
    pub unit_price_cents: Money,
    pub total_cents: Money,
}

#[derive(Clone, Copy, Debug, PartialEq, Eq, Structural)]
pub enum PlayerTradeError {
    InvalidTown(TownId),
    ZeroQuantity,
    InsufficientCash { required: Money, available: Money },
    InsufficientInventory { good: Good, required: u32, available: u32 },
    InsufficientMarketFunds { town: TownId, required: Money, available: Money },
    AmountOverflow,
}

/// A player's cash and goods, apart from every NPC.
#[derive(Clone, Debug, PartialEq, Eq)]
pub struct PlayerAccount {
    pub starting_cash_cents: Money,
    pub cash_cents: Money,
    pub inventory: Inventory,
    pub trades: Vec<PlayerTradeReceipt>,
}

/// The unit price of a good in a town: its base price at the town's index for it.
pub open spec fn unit_price(economy: TownEconomy, good: Good) -> Money {
    indexed_price_spec(base_price_spec(good), economy.markets.market(good).price_index) as Money
}

/// The value of goods at a town's prices, summed in order; every step saturates.
pub open spec fn goods_value(economy: TownEconomy, entries: Seq<(Good, u32)>) -> Money
    decreases entries.len(),
{
    if entries.len() == 0 {
        0
    } else {
        goods_value(economy, entries.drop_last()).saturating_add(
            crate::arith::saturating_mul_spec(unit_price(economy, entries.last().0), entries.last().1 as u64),
        )
    }
}

/// The first reason a purchase is refused, if any.
pub open spec fn buy_refusal(account: PlayerAccount, world: World, town_id: TownId, good: Good, quantity: u32) -> Option<PlayerTradeError> {
    if quantity == 0 {
        Some(PlayerTradeError::ZeroQuantity)
    } else if !town_at(world.towns@, town_id) {
        Some(PlayerTradeError::InvalidTown(town_id))
    } else {
        let economy = world.towns@[town_id.0 as int].economy;
        let total = unit_price(economy, good) * quantity;
        if total > u64::MAX {
            Some(PlayerTradeError::AmountOverflow)
        } else if account.cash_cents < total {
            Some(PlayerTradeError::InsufficientCash { required: total as Money, available: account.cash_cents })
        } else if account.inventory.count(good) + quantity > u32::MAX || economy.treasury_cents + total > u64::MAX {
            Some(PlayerTradeError::AmountOverflow)
        } else {
            None
        }
    }
}

/// The first reason a sale is refused, if any.
pub open spec fn sell_refusal(account: PlayerAccount, world: World, town_id: TownId, good: Good, quantity: u32) -> Option<PlayerTradeError> {
    if quantity == 0 {
        Some(PlayerTradeError::ZeroQuantity)
    } else if !town_at(world.towns@, town_id) {
        Some(PlayerTradeError::InvalidTown(town_id))
    } else if account.inventory.count(good) < quantity {
        Some(
            PlayerTradeError::InsufficientInventory {
                good,
                required: quantity,
                available: account.inventory.count(good),
            },
        )
    } else {
        let economy = world.towns@[town_id.0 as int].economy;
        let total = unit_price(economy, good) * quantity;
        if total > u64::MAX {
            Some(PlayerTradeError::AmountOverflow)
        } else if economy.treasury_cents < total {
            Some(
                PlayerTradeError::InsufficientMarketFunds {
                    town: town_id,
                    required: total as Money,
                    available: economy.treasury_cents,
                },
            )
        } else if account.cash_cents + total > u64::MAX {
            Some(PlayerTradeError::AmountOverflow)
        } else {
            None
        }
    }
}

impl PlayerAccount {
    pub fn new(starting_cash_cents: Money) -> (account: Self)
        ensures
            account.starting_cash_cents == starting_cash_cents,
            account.cash_cents == starting_cash_cents,
            forall|good: Good| #[trigger] account.inventory.count(good) == 0,
            account.trades@.len() == 0,
    {
        PlayerAccount {
            starting_cash_cents,
            cash_cents: starting_cash_cents,
            inventory: Inventory::empty(),
            trades: Vec::new(),
        }
    }

    /// Buys goods from a town's market at its current price. The money goes to the town's
    /// treasury and the trade is recorded; a refused purchase changes nothing.
    pub fn buy(&mut self, world: &mut World, town_id: TownId, good: Good, quantity: u32) -> (result: Result<PlayerTradeReceipt, PlayerTradeError>)
        ensures
            buy_refusal(*old(self), *old(world), town_id, good, quantity) matches Some(error) ==> result
                == Err::<PlayerTradeReceipt, PlayerTradeError>(error) && *final(self) == *old(self) && *final(world)
                == *old(world),
            buy_refusal(*old(self), *old(world), town_id, good, quantity) is None ==> {
                let t = town_id.0 as int;
                let economy = old(world).towns@[t].economy;
                let price = unit_price(economy, good);
                let total = (price * quantity) as Money;
                let receipt = PlayerTradeReceipt {
                    side: PlayerTradeSide::Buy,
                    town: town_id,
                    good,
                    quantity,
                    unit_price_cents: price,
                    total_cents: total,
                };
                &&& result == Ok::<PlayerTradeReceipt, PlayerTradeError>(receipt)
                &&& final(self).cash_cents == old(self).cash_cents - total
                &&& final(self).inventory.count(good) == old(self).inventory.count(good) + quantity
                &&& forall|other: Good| other != good ==> #[trigger] final(self).inventory.count(other) == old(
                    self,
                ).inventory.count(other)
                &&& final(self).trades@ == old(self).trades@.push(receipt)
                &&& final(self).starting_cash_cents == old(self).starting_cash_cents
                &&& final(world).towns@ == old(world).towns@.update(
                    t,
                    Town {
                        economy: TownEconomy {
                            treasury_cents: (economy.treasury_cents + total) as Money,
                            ..economy
                        }.traded(good, quantity as u64, total),
                        ..old(world).towns@[t]
                    },
                )
                &&& *final(world) == (World { towns: final(world).towns, ..*old(world) })
            },
    {
        if quantity == 0 {
            return Err(PlayerTradeError::ZeroQuantity);
        }
        let town = match world.town(town_id) {
            Some(town) => town,
            None => {
                return Err(PlayerTradeError::InvalidTown(town_id));
            },
        };
        let unit_price_cents = town.economy.good_price(good);
        let total_cents = match unit_price_cents.checked_mul(quantity as u64) {
            Some(total) => total,
            None => {
                return Err(PlayerTradeError::AmountOverflow);
            },
        };
        if self.cash_cents < total_cents {
            return Err(PlayerTradeError::InsufficientCash { required: total_cents, available: self.cash_cents });
        }
        if self.inventory.quantity(good).checked_add(quantity).is_none() || town.economy.treasury_cents.checked_add(
            total_cents,
        ).is_none() {
            return Err(PlayerTradeError::AmountOverflow);
        }
        self.cash_cents = self.cash_cents - total_cents;
        self.inventory.add(good, quantity);
        match world.town_mut(town_id) {
            Some(town) => {
                town.economy.treasury_cents = town.economy.treasury_cents + total_cents;
                town.economy.record_good_trade(good, quantity as u64, total_cents);
            },
            None => {},
        }
        let receipt = PlayerTradeReceipt {
            side: PlayerTradeSide::Buy,
            town: town_id,
            good,
            quantity,
            unit_price_cents,
            total_cents,
        };
        self.trades.push(receipt);
        Ok(receipt)
    }

    /// Sells goods to a town's market at its current price, paid from the town's
    /// treasury; a refused sale changes nothing.
    pub fn sell(&mut self, world: &mut World, town_id: TownId, good: Good, quantity: u32) -> (result: Result<PlayerTradeReceipt, PlayerTradeError>)
        ensures
            sell_refusal(*old(self), *old(world), town_id, good, quantity) matches Some(error) ==> result
                == Err::<PlayerTradeReceipt, PlayerTradeError>(error) && *final(self) == *old(self) && *final(world)
                == *old(world),
            sell_refusal(*old(self), *old(world), town_id, good, quantity) is None ==> {
                let t = town_id.0 as int;
                let economy = old(world).towns@[t].economy;
                let price = unit_price(economy, good);
                let total = (price * quantity) as Money;
                let receipt = PlayerTradeReceipt {
                    side: PlayerTradeSide::Sell,
                    town: town_id,
                    good,
                    quantity,
                    unit_price_cents: price,
                    total_cents: total,
                };
                &&& result == Ok::<PlayerTradeReceipt, PlayerTradeError>(receipt)
                &&& final(self).cash_cents == old(self).cash_cents + total
                &&& final(self).inventory.count(good) == old(self).inventory.count(good) - quantity
                &&& forall|other: Good| other != good ==> #[trigger] final(self).inventory.count(other) == old(
                    self,
                ).inventory.count(other)
                &&& final(self).trades@ == old(self).trades@.push(receipt)
                &&& final(self).starting_cash_cents == old(self).starting_cash_cents
                &&& final(world).towns@ == old(world).towns@.update(
                    t,
                    Town {
                        economy: TownEconomy {
                            treasury_cents: (economy.treasury_cents - total) as Money,
                            ..economy
                        }.traded(good, quantity as u64, total),
                        ..old(world).towns@[t]
                    },
                )
                &&& *final(world) == (World { towns: final(world).towns, ..*old(world) })
            },
    {
        if quantity == 0 {
            return Err(PlayerTradeError::ZeroQuantity);
        }
        let town = match world.town(town_id) {
            Some(town) => town,
            None => {
                return Err(PlayerTradeError::InvalidTown(town_id));
            },
        };
        let available = self.inventory.quantity(good);
        if available < quantity {
            return Err(PlayerTradeError::InsufficientInventory { good, required: quantity, available });
        }
        let unit_price_cents = town.economy.good_price(good);
        let total_cents = match unit_price_cents.checked_mul(quantity as u64) {
            Some(total) => total,
            None => {
                return Err(PlayerTradeError::AmountOverflow);
            },
        };
        if town.economy.treasury_cents < total_cents {
            return Err(
                PlayerTradeError::InsufficientMarketFunds {
                    town: town_id,
                    required: total_cents,
                    available: town.economy.treasury_cents,
                },
            );
        }
        if self.cash_cents.checked_add(total_cents).is_none() {
            return Err(PlayerTradeError::AmountOverflow);
        }
        self.inventory.remove(good, quantity);
        self.cash_cents = self.cash_cents + total_cents;
        match world.town_mut(town_id) {
            Some(town) => {
                town.economy.treasury_cents = town.economy.treasury_cents - total_cents;
                town.economy.record_good_trade(good, quantity as u64, total_cents);
            },
            None => {},
        }
        let receipt = PlayerTradeReceipt {
            side: PlayerTradeSide::Sell,
            town: town_id,
            good,
            quantity,
            unit_price_cents,
            total_cents,
        };
        self.trades.push(receipt);
        Ok(receipt)
    }

    /// The goods at the town's current prices (saturating); the town's finances are not
    /// touched.
    pub fn inventory_market_value(&self, world: &World, town_id: TownId) -> (result: Result<Money, PlayerTradeError>)
        ensures
            !town_at(world.towns@, town_id) ==> result == Err::<Money, PlayerTradeError>(
                PlayerTradeError::InvalidTown(town_id),
            ),
            town_at(world.towns@, town_id) ==> result == Ok::<Money, PlayerTradeError>(
                goods_value(world.towns@[town_id.0 as int].economy, self.inventory.entries_spec()),
            ),
    {
        let town = match world.town(town_id) {
            Some(town) => town,
            None => {
                return Err(PlayerTradeError::InvalidTown(town_id));
            },
        };
        let entries = self.inventory.iter();
        let mut value: Money = 0;
        let mut i: usize = 0;
        while i < entries.len()
            invariant
                i <= entries@.len(),
                value == goods_value(town.economy, entries@.take(i as int)),
            decreases entries.len() - i,
        {
            let (good, quantity) = entries[i];
            let price = town.economy.good_price(good);
            value = value.saturating_add(crate::arith::saturating_mul_u64(price, quantity as u64));
            proof {
                assert(entries@.take(i + 1).drop_last() =~= entries@.take(i as int));
            }
            i = i + 1;
        }
        proof {
            assert(entries@.take(entries@.len() as int) =~= entries@);
        }
        Ok(value)
    }

    /// Cash plus the goods at the town's current prices (saturating).
    pub fn total_value(&self, world: &World, town_id: TownId) -> (result: Result<Money, PlayerTradeError>)
        ensures
            !town_at(world.towns@, town_id) ==> result == Err::<Money, PlayerTradeError>(
                PlayerTradeError::InvalidTown(town_id),
            ),
            town_at(world.towns@, town_id) ==> result == Ok::<Money, PlayerTradeError>(
                self.cash_cents.saturating_add(
                    goods_value(world.towns@[town_id.0 as int].economy, self.inventory.entries_spec()),
                ),
            ),
    {
        match self.inventory_market_value(world, town_id) {
            Ok(value) => Ok(self.cash_cents.saturating_add(value)),
            Err(error) => Err(error),
        }
    }

    /// Sells every good at the current market value for the final score: the cash becomes
    /// the total value and the goods are gone. The town's finances are not touched.
    pub fn settle_at_market_value(&mut self, world: &World, town_id: TownId) -> (result: Result<Money, PlayerTradeError>)
        ensures
            !town_at(world.towns@, town_id) ==> result == Err::<Money, PlayerTradeError>(
                PlayerTradeError::InvalidTown(town_id),
            ) && *final(self) == *old(self),
            town_at(world.towns@, town_id) ==> {
                let total = old(self).cash_cents.saturating_add(
                    goods_value(world.towns@[town_id.0 as int].economy, old(self).inventory.entries_spec()),
                );
                &&& result == Ok::<Money, PlayerTradeError>(total)
                &&& final(self).cash_cents == total
                &&& forall|good: Good| #[trigger] final(self).inventory.count(good) == 0
                &&& final(self).trades == old(self).trades
                &&& final(self).starting_cash_cents == old(self).starting_cash_cents
            },
    {
        let final_cash = match self.total_value(world, town_id) {
            Ok(value) => value,
            Err(error) => {
                return Err(error);
            },
        };
        self.inventory = Inventory::empty();
        self.cash_cents = final_cash;
        Ok(final_cash)
    }
}

} // verus!
