//! The counts behind the health of the relationship graph: the relationships between
//! active NPCs, the strong ones, and those at the extremes of the relation scale.

use vstd::prelude::*;

use crate::crisis::listed_index;
use crate::id::NpcId;
use crate::migration::{mark_scheduled, marked};
use crate::npc::Npc;
use crate::relationship::Relationship;
use crate::world::{npc_at, World};

verus! {

/// The other NPC counts as active: an entry of the active list carries its index, which is
/// within the NPC table.
pub open spec fn counted_as_active(active: Seq<NpcId>, count: int) -> spec_fn(NpcId) -> bool {
    |id: NpcId| (id.0 as int) < count && listed_index(active, id.0 as int)
}

/// The relation is at one end of the scale.
pub open spec fn extreme(relationship: Relationship) -> bool {
    relationship.relation == 0 || relationship.relation == 10
}

/// The NPC's relationships with active NPCs: all, the strong ones, and the extreme ones.
pub open spec fn links_of(npc: Npc, active: Seq<NpcId>, count: int) -> (nat, nat, nat) {
    let keys = npc.relationships.key_order();
    let map = npc.relationships@;
    let live = counted_as_active(active, count);
    (
        keys.filter(live).len(),
        keys.filter(|k: NpcId| live(k) && map[k].strong()).len(),
        keys.filter(|k: NpcId| live(k) && extreme(map[k])).len(),
    )
}

/// The counts summed over the NPCs found for the ids.
pub open spec fn links_of_all(npcs: Seq<Npc>, ids: Seq<NpcId>, active: Seq<NpcId>) -> (nat, nat, nat)
    decreases ids.len(),
{
    if ids.len() == 0 {
        (0, 0, 0)
    } else {
        let earlier = links_of_all(npcs, ids.drop_last(), active);
        if npc_at(npcs, ids.last()) {
            let own = links_of(npcs[ids.last().0 as int], active, npcs.len() as int);
            ((earlier.0 + own.0) as nat, (earlier.1 + own.1) as nat, (earlier.2 + own.2) as nat)
        } else {
            earlier
        }
    }
}

/// The count, or the largest `usize` when it is larger.
pub open spec fn capped(count: nat) -> usize {
    if count > usize::MAX {
        usize::MAX
    } else {
        count as usize
    }
}

/// Counts, over the active NPCs, their relationships with active NPCs: all of them, the
/// strong ones and those at an extreme of the relation scale (a count beyond `usize` stays
/// at its largest value).
pub fn relationship_tally(world: &World) -> (counts: (usize, usize, usize))
    ensures
        ({
            let total = links_of_all(world.npcs@, world.active_npcs@, world.active_npcs@);
            counts == (capped(total.0), capped(total.1), capped(total.2))
        }),
{
    let ghost active = world.active_npcs@;
    let ghost count = world.npcs@.len() as int;
    let mut flags: Vec<bool> = Vec::new();
    while flags.len() < world.npcs.len()
        invariant
            flags@.len() <= world.npcs@.len(),
            forall|j: int| 0 <= j < flags@.len() ==> !#[trigger] flags@[j],
        decreases world.npcs.len() - flags@.len(),
    {
        flags.push(false);
    }
    let ghost cleared = flags@;
    mark_scheduled(&mut flags, &world.active_npcs);
    proof {
        assert forall|j: int| 0 <= j < flags@.len() implies #[trigger] flags@[j] == listed_index(active, j) by {
            assert(flags@ == marked(cleared, active));
        }
    }
    let mut relationships: usize = 0;
    let mut strong: usize = 0;
    let mut extremes: usize = 0;
    let mut k: usize = 0;
    while k < world.active_npcs.len()
        invariant
            k <= active.len(),
            active == world.active_npcs@,
            count == world.npcs@.len(),
            flags@.len() == count,
            forall|j: int| 0 <= j < flags@.len() ==> #[trigger] flags@[j] == listed_index(active, j),
            ({
                let sums = links_of_all(world.npcs@, active.take(k as int), active);
                &&& relationships == capped(sums.0)
                &&& strong == capped(sums.1)
                &&& extremes == capped(sums.2)
            }),
        decreases active.len() - k,
    {
        let id = world.active_npcs[k];
        proof {
            assert(active.take(k as int + 1).drop_last() =~= active.take(k as int));
        }
        match world.npc(id) {
            Some(npc) => {
                let entries = npc.relationships.entries();
                let ghost keys = npc.relationships.key_order();
                let ghost map = npc.relationships@;
                let ghost live = counted_as_active(active, count);
                let ghost strong_live = |x: NpcId| live(x) && map[x].strong();
                let ghost extreme_live = |x: NpcId| live(x) && extreme(map[x]);
                let ghost start = (relationships, strong, extremes);
                let mut own: usize = 0;
                let mut own_strong: usize = 0;
                let mut own_extreme: usize = 0;
                let mut e: usize = 0;
                while e < entries.len()
                    invariant
                        e <= entries@.len(),
                        entries@.len() == keys.len(),
                        forall|i: int|
                            0 <= i < entries@.len() ==> (#[trigger] entries@[i]).0 == keys[i] && map.contains_key(
                                entries@[i].0,
                            ) && entries@[i].1 == map[entries@[i].0],
                        flags@.len() == count,
                        forall|j: int| 0 <= j < flags@.len() ==> #[trigger] flags@[j] == listed_index(active, j),
                        live == counted_as_active(active, count),
                        strong_live == (|x: NpcId| live(x) && map[x].strong()),
                        extreme_live == (|x: NpcId| live(x) && extreme(map[x])),
                        own == keys.take(e as int).filter(live).len(),
                        own_strong == keys.take(e as int).filter(strong_live).len(),
                        own_extreme == keys.take(e as int).filter(extreme_live).len(),
                        own <= e,
                        own_strong <= e,
                        own_extreme <= e,
                    decreases entries.len() - e,
                {
                    let other = entries[e].0;
                    let relationship = entries[e].1;
                    proof {
                        assert(keys.take(e as int + 1) =~= keys.take(e as int).push(keys[e as int]));
                        keys.take(e as int).lemma_filter_push(keys[e as int], live);
                        keys.take(e as int).lemma_filter_push(keys[e as int], strong_live);
                        keys.take(e as int).lemma_filter_push(keys[e as int], extreme_live);
                    }
                    let index = other.0 as usize;
                    if index < flags.len() && flags[index] {
                        own = own + 1;
                        if relationship.is_strong() {
                            own_strong = own_strong + 1;
                        }
                        if relationship.relation == 0 || relationship.relation == 10 {
                            own_extreme = own_extreme + 1;
                        }
                    }
                    e = e + 1;
                }
                proof {
                    assert(keys.take(keys.len() as int) =~= keys);
                    assert(links_of(*npc, active, count) == (own as nat, own_strong as nat, own_extreme as nat));
                }
                relationships = relationships.saturating_add(own);
                strong = strong.saturating_add(own_strong);
                extremes = extremes.saturating_add(own_extreme);
            },
            None => {},
        }
        k = k + 1;
    }
    proof {
        assert(active.take(active.len() as int) =~= active);
    }
    (relationships, strong, extremes)
}

} // verus!
