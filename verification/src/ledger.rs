use vstd::prelude::*;

use crate::economy::{base_price_spec, indexed_price_spec, EconomyError, Good, Inventory, Money, TransactionReceipt, TransferReceipt};
use crate::id::NpcId;
use crate::npc::Npc;
use crate::town::Town;
use crate::world::{npc_at, town_at, World};

verus! {

/// Cash held by the NPCs of `npcs`.
pub open spec fn cash_total(npcs: Seq<Npc>) -> int
    decreases npcs.len(),
{
    if npcs.len() == 0 {
        0
    } else {
        cash_total(npcs.drop_last()) + npcs.last().money_cents
    }
}

/// Money held by the treasuries of `towns`.
pub open spec fn treasury_total(towns: Seq<Town>) -> int
    decreases towns.len(),
{
    if towns.len() == 0 {
        0
    } else {
        treasury_total(towns.drop_last()) + towns.last().economy.treasury_cents
    }
}

/// All the money of the world: the NPCs' cash and the towns' treasuries.
pub open spec fn world_money(world: World) -> int {
    cash_total(world.npcs@) + treasury_total(world.towns@)
}

/// Changing one NPC changes the cash total by the change of its cash.
pub proof fn lemma_cash_update(npcs: Seq<Npc>, i: int, npc: Npc)
    requires
        0 <= i < npcs.len(),
    ensures
        cash_total(npcs.update(i, npc)) == cash_total(npcs) - npcs[i].money_cents + npc.money_cents,
    decreases npcs.len(),
{
    if i < npcs.len() - 1 {
        assert(npcs.update(i, npc).drop_last() =~= npcs.drop_last().update(i, npc));
        lemma_cash_update(npcs.drop_last(), i, npc);
    } else {
        assert(npcs.update(i, npc).drop_last() =~= npcs.drop_last());
    }
}

/// The cash of two different NPCs together is at most the cash total, and so is the cash
/// of one.
pub proof fn lemma_cash_bound(npcs: Seq<Npc>, i: int, j: int)
    requires
        0 <= i < npcs.len(),
        0 <= j < npcs.len(),
    ensures
        npcs[i].money_cents <= cash_total(npcs),
        i != j ==> npcs[i].money_cents + npcs[j].money_cents <= cash_total(npcs),
    decreases npcs.len(),
{
    let rest = npcs.drop_last();
    let last = npcs.len() - 1;
    if i < last && j < last {
        lemma_cash_bound(rest, i, j);
    } else if i < last {
        lemma_cash_bound(rest, i, i);
    } else if j < last {
        lemma_cash_bound(rest, j, j);
    } else if npcs.len() > 1 {
        lemma_cash_bound(rest, 0, 0);
    }
    lemma_cash_nonnegative(rest);
}

pub proof fn lemma_cash_nonnegative(npcs: Seq<Npc>)
    ensures
        cash_total(npcs) >= 0,
    decreases npcs.len(),
{
    if npcs.len() > 0 {
        lemma_cash_nonnegative(npcs.drop_last());
    }
}

/// Changing one town changes the treasury total by the change of its treasury.
pub proof fn lemma_treasury_update(towns: Seq<Town>, i: int, town: Town)
    requires
        0 <= i < towns.len(),
    ensures
        treasury_total(towns.update(i, town)) == treasury_total(towns) - towns[i].economy.treasury_cents
            + town.economy.treasury_cents,
    decreases towns.len(),
{
    if i < towns.len() - 1 {
        assert(towns.update(i, town).drop_last() =~= towns.drop_last().update(i, town));
        lemma_treasury_update(towns.drop_last(), i, town);
    } else {
        assert(towns.update(i, town).drop_last() =~= towns.drop_last());
    }
}

/// One treasury is at most the treasury total.
pub proof fn lemma_treasury_bound(towns: Seq<Town>, i: int)
    requires
        0 <= i < towns.len(),
    ensures
        towns[i].economy.treasury_cents <= treasury_total(towns),
    decreases towns.len(),
{
    if i < towns.len() - 1 {
        lemma_treasury_bound(towns.drop_last(), i);
    } else {
        lemma_treasury_nonnegative(towns.drop_last());
    }
}

pub proof fn lemma_treasury_nonnegative(towns: Seq<Town>)
    ensures
        treasury_total(towns) >= 0,
    decreases towns.len(),
{
    if towns.len() > 0 {
        lemma_treasury_nonnegative(towns.drop_last());
    }
}

/// Why a transfer of `amount` from `from` to `to` is refused, if it is: the first failed
/// check in the order the transfer makes them.
pub open spec fn transfer_error(world: World, from: NpcId, to: NpcId, amount: Money) -> Option<EconomyError> {
    transfer_refusal(world.npcs@, from, to, amount)
}

/// Why a transfer between these NPCs is refused, if it is.
pub open spec fn transfer_refusal(npcs: Seq<Npc>, from: NpcId, to: NpcId, amount: Money) -> Option<EconomyError> {
    if from == to {
        Some(EconomyError::SameNpc(from))
    } else if amount == 0 {
        Some(EconomyError::ZeroAmount)
    } else if !npc_at(npcs, from) {
        Some(EconomyError::InvalidNpc(from))
    } else if !npc_at(npcs, to) {
        Some(EconomyError::InvalidNpc(to))
    } else if !npcs[from.0 as int].active() {
        Some(EconomyError::InactiveNpc(from))
    } else if !npcs[to.0 as int].active() {
        Some(EconomyError::InactiveNpc(to))
    } else if npcs[from.0 as int].money_cents < amount {
        Some(
            EconomyError::InsufficientFunds {
                npc: from,
                required: amount,
                available: npcs[from.0 as int].money_cents,
            },
        )
    } else if npcs[to.0 as int].money_cents + amount > u64::MAX {
        Some(EconomyError::AmountOverflow)
    } else {
        None
    }
}

impl World {
    /// Gives `amount` of `from`'s cash to `to`, both active NPCs. A refused transfer
    /// changes nothing; a done one moves exactly the amount, so no money is made or lost.
    pub fn transfer_money(&mut self, from: NpcId, to: NpcId, amount: Money) -> (result: Result<
        TransferReceipt,
        EconomyError,
    >)
        ensures
            transfer_error(*old(self), from, to, amount) matches Some(e) ==> result == Err::<
                TransferReceipt,
                EconomyError,
            >(e) && *final(self) == *old(self),
            transfer_error(*old(self), from, to, amount) is None ==> {
                let npcs = old(self).npcs@;
                &&& result == Ok::<TransferReceipt, EconomyError>(
                    TransferReceipt { from, to, amount_cents: amount },
                )
                &&& final(self).npcs@ == npcs.update(
                    from.0 as int,
                    Npc { money_cents: (npcs[from.0 as int].money_cents - amount) as u64, ..npcs[from.0 as int] },
                ).update(
                    to.0 as int,
                    Npc { money_cents: (npcs[to.0 as int].money_cents + amount) as u64, ..npcs[to.0 as int] },
                )
                &&& *final(self) == (World { npcs: final(self).npcs, ..*old(self) })
            },
            world_money(*final(self)) == world_money(*old(self)),
    {
        if from == to {
            return Err(EconomyError::SameNpc(from));
        }
        if amount == 0 {
            return Err(EconomyError::ZeroAmount);
        }
        let (from_active, from_money) = match self.npc(from) {
            Some(npc) => (npc.is_active(), npc.money_cents),
            None => {
                return Err(EconomyError::InvalidNpc(from));
            },
        };
        let (to_active, to_money) = match self.npc(to) {
            Some(npc) => (npc.is_active(), npc.money_cents),
            None => {
                return Err(EconomyError::InvalidNpc(to));
            },
        };
        if !from_active {
            return Err(EconomyError::InactiveNpc(from));
        }
        if !to_active {
            return Err(EconomyError::InactiveNpc(to));
        }
        if from_money < amount {
            return Err(EconomyError::InsufficientFunds { npc: from, required: amount, available: from_money });
        }
        if to_money > u64::MAX - amount {
            return Err(EconomyError::AmountOverflow);
        }
        let ghost before = *self;
        match self.two_npcs_mut(from, to) {
            Some((giver, taker)) => {
                giver.money_cents = from_money - amount;
                taker.money_cents = to_money + amount;
            },
            None => {},
        }
        proof {
            let npcs = before.npcs@;
            let middle = npcs.update(
                from.0 as int,
                Npc { money_cents: (npcs[from.0 as int].money_cents - amount) as u64, ..npcs[from.0 as int] },
            );
            lemma_cash_update(npcs, from.0 as int, middle[from.0 as int]);
            lemma_cash_update(middle, to.0 as int, self.npcs@[to.0 as int]);
            assert(self.npcs@ == middle.update(to.0 as int, self.npcs@[to.0 as int]));
        }
        Ok(TransferReceipt { from, to, amount_cents: amount })
    }
}

/// Why a purchase of `quantity` units of `good` at `unit_price` from `seller` is refused,
/// if it is: the first failed check in the order the purchase makes them.
pub open spec fn purchase_error(
    world: World,
    buyer: NpcId,
    seller: NpcId,
    good: Good,
    quantity: u32,
    unit_price: Money,
) -> Option<EconomyError> {
    let npcs = world.npcs@;
    let total = quantity * unit_price;
    if buyer == seller {
        Some(EconomyError::SameNpc(buyer))
    } else if quantity == 0 {
        Some(EconomyError::ZeroAmount)
    } else if !npc_at(npcs, buyer) {
        Some(EconomyError::InvalidNpc(buyer))
    } else if !npc_at(npcs, seller) {
        Some(EconomyError::InvalidNpc(seller))
    } else if !npcs[buyer.0 as int].active() {
        Some(EconomyError::InactiveNpc(buyer))
    } else if !npcs[seller.0 as int].active() {
        Some(EconomyError::InactiveNpc(seller))
    } else if total > u64::MAX {
        Some(EconomyError::AmountOverflow)
    } else if npcs[buyer.0 as int].money_cents < total {
        Some(
            EconomyError::InsufficientFunds {
                npc: buyer,
                required: total as u64,
                available: npcs[buyer.0 as int].money_cents,
            },
        )
    } else if npcs[seller.0 as int].inventory.count(good) < quantity {
        Some(
            EconomyError::InsufficientInventory {
                npc: seller,
                good,
                required: quantity,
                available: npcs[seller.0 as int].inventory.count(good),
            },
        )
    } else if npcs[seller.0 as int].money_cents + total > u64::MAX {
        Some(EconomyError::AmountOverflow)
    } else {
        None
    }
}

/// What a purchase does: refused, nothing changes and the first failed check is the
/// error; done, the receipt is for `quantity * unit_price`, that money goes from the buyer
/// to the seller, the goods go from the seller to the buyer, and nothing else changes.
pub open spec fn purchase_outcome(
    before: World,
    after: World,
    result: Result<TransactionReceipt, EconomyError>,
    buyer: NpcId,
    seller: NpcId,
    good: Good,
    quantity: u32,
    unit_price: Money,
) -> bool {
    &&& (purchase_error(before, buyer, seller, good, quantity, unit_price) matches Some(e) ==> result == Err::<
                TransactionReceipt,
                EconomyError,
            >(e) && after == before)
    &&& (purchase_error(before, buyer, seller, good, quantity, unit_price) is None ==> {
                let npcs = before.npcs@;
                let total = (quantity * unit_price) as u64;
                let paying = npcs[buyer.0 as int];
                let selling = npcs[seller.0 as int];
                &&& result == Ok::<TransactionReceipt, EconomyError>(
                    TransactionReceipt { buyer, seller, good, quantity, total_cents: total },
                )
                &&& after.npcs@ == npcs.update(
                    buyer.0 as int,
                    Npc {
                        money_cents: (paying.money_cents - total) as u64,
                        inventory: after.npcs@[buyer.0 as int].inventory,
                        ..paying
                    },
                ).update(
                    seller.0 as int,
                    Npc {
                        money_cents: (selling.money_cents + total) as u64,
                        inventory: after.npcs@[seller.0 as int].inventory,
                        ..selling
                    },
                )
                &&& after.npcs@[buyer.0 as int].inventory.count(good) == paying.inventory.count(good).saturating_add(
                    quantity,
                )
                &&& after.npcs@[seller.0 as int].inventory.count(good) == selling.inventory.count(good) - quantity
                &&& forall|other: Good|
                    other != good ==> #[trigger] after.npcs@[buyer.0 as int].inventory.count(other)
                        == paying.inventory.count(other) && after.npcs@[seller.0 as int].inventory.count(other)
                        == selling.inventory.count(other)
                &&& after == (World { npcs: after.npcs, ..before })
            })
}

/// The unit price of `good` for `buyer`: the price in its town, or the base price when the
/// buyer or its town is not found.
pub open spec fn market_price_spec(world: World, buyer: NpcId, good: Good) -> u64 {
    let npcs = world.npcs@;
    if npc_at(npcs, buyer) && town_at(world.towns@, npcs[buyer.0 as int].town) {
        indexed_price_spec(
            base_price_spec(good),
            world.towns@[npcs[buyer.0 as int].town.0 as int].economy.markets.market(good).price_index,
        ) as u64
    } else {
        base_price_spec(good)
    }
}

impl World {
    /// Exchanges `quantity` units of `good` from `seller` for `quantity * unit_price` of
    /// `buyer`'s cash, both active NPCs. A refused purchase changes nothing; a done one
    /// moves exactly the goods and the money, so no money is made or lost.
    pub fn purchase(&mut self, buyer: NpcId, seller: NpcId, good: Good, quantity: u32, unit_price: Money) -> (result:
        Result<TransactionReceipt, EconomyError>)
        ensures
            purchase_outcome(*old(self), *final(self), result, buyer, seller, good, quantity, unit_price),
            world_money(*final(self)) == world_money(*old(self)),
    {
        if buyer == seller {
            return Err(EconomyError::SameNpc(buyer));
        }
        if quantity == 0 {
            return Err(EconomyError::ZeroAmount);
        }
        let (buyer_active, buyer_money) = match self.npc(buyer) {
            Some(npc) => (npc.is_active(), npc.money_cents),
            None => {
                return Err(EconomyError::InvalidNpc(buyer));
            },
        };
        let (seller_active, seller_money, held) = match self.npc(seller) {
            Some(npc) => (npc.is_active(), npc.money_cents, npc.inventory.quantity(good)),
            None => {
                return Err(EconomyError::InvalidNpc(seller));
            },
        };
        if !buyer_active {
            return Err(EconomyError::InactiveNpc(buyer));
        }
        if !seller_active {
            return Err(EconomyError::InactiveNpc(seller));
        }
        let total = match (quantity as u64).checked_mul(unit_price) {
            Some(total) => total,
            None => {
                return Err(EconomyError::AmountOverflow);
            },
        };
        if buyer_money < total {
            return Err(EconomyError::InsufficientFunds { npc: buyer, required: total, available: buyer_money });
        }
        if held < quantity {
            return Err(EconomyError::InsufficientInventory { npc: seller, good, required: quantity, available: held });
        }
        if seller_money > u64::MAX - total {
            return Err(EconomyError::AmountOverflow);
        }
        let ghost before = *self;
        match self.two_npcs_mut(buyer, seller) {
            Some((paying, selling)) => {
                paying.money_cents = buyer_money - total;
                selling.money_cents = seller_money + total;
                let removed = selling.inventory.remove(good, quantity);
                paying.inventory.add(good, quantity);
            },
            None => {},
        }
        proof {
            let npcs = before.npcs@;
            let middle = npcs.update(buyer.0 as int, self.npcs@[buyer.0 as int]);
            lemma_cash_update(npcs, buyer.0 as int, self.npcs@[buyer.0 as int]);
            lemma_cash_update(middle, seller.0 as int, self.npcs@[seller.0 as int]);
            assert(self.npcs@ == middle.update(seller.0 as int, self.npcs@[seller.0 as int]));
        }
        Ok(TransactionReceipt { buyer, seller, good, quantity, total_cents: total })
    }

    /// A purchase at the price of `good` in the buyer's town (its base price when the
    /// buyer or its town is not found).
    pub fn purchase_at_market_price(&mut self, buyer: NpcId, seller: NpcId, good: Good, quantity: u32) -> (result:
        Result<TransactionReceipt, EconomyError>)
        ensures
            purchase_outcome(
                *old(self),
                *final(self),
                result,
                buyer,
                seller,
                good,
                quantity,
                market_price_spec(*old(self), buyer, good),
            ),
            world_money(*final(self)) == world_money(*old(self)),
    {
        let unit_price = match self.npc(buyer) {
            Some(npc) => match self.town(npc.town) {
                Some(town) => town.economy.good_price(good),
                None => good.base_price_cents(),
            },
            None => good.base_price_cents(),
        };
        self.purchase(buyer, seller, good, quantity, unit_price)
    }
}

} // verus!
