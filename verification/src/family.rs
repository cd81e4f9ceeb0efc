//! An NPC's wider family as the records show it: grandparents, siblings and
//! grandchildren, and lists of relatives in ascending order without repeats.

use vstd::prelude::*;

use crate::id::NpcId;
use crate::npc::Npc;
use crate::sorted_ids::{insert_npc_id, npc_ids_sorted};
use crate::world::{npc_at, World};

verus! {

/// The parents recorded by each NPC found for the ids, one after another.
pub open spec fn parents_of_all(npcs: Seq<Npc>, ids: Seq<NpcId>) -> Seq<NpcId>
    decreases ids.len(),
{
    if ids.len() == 0 {
        Seq::empty()
    } else {
        let earlier = parents_of_all(npcs, ids.drop_last());
        if npc_at(npcs, ids.last()) {
            earlier + npcs[ids.last().0 as int].parents@
        } else {
            earlier
        }
    }
}

/// The children recorded by each NPC found for the ids, one after another.
pub open spec fn children_of_all(npcs: Seq<Npc>, ids: Seq<NpcId>) -> Seq<NpcId>
    decreases ids.len(),
{
    if ids.len() == 0 {
        Seq::empty()
    } else {
        let earlier = children_of_all(npcs, ids.drop_last());
        if npc_at(npcs, ids.last()) {
            earlier + npcs[ids.last().0 as int].children@
        } else {
            earlier
        }
    }
}

/// Appends the parents (or, with `children`, the children) recorded by each NPC found for
/// the ids.
fn gather(world: &World, ids: &Vec<NpcId>, children: bool) -> (gathered: Vec<NpcId>)
    ensures
        gathered@ == (if children {
            children_of_all(world.npcs@, ids@)
        } else {
            parents_of_all(world.npcs@, ids@)
        }),
{
    let mut gathered: Vec<NpcId> = Vec::new();
    let mut k: usize = 0;
    while k < ids.len()
        invariant
            k <= ids@.len(),
            gathered@ == (if children {
                children_of_all(world.npcs@, ids@.take(k as int))
            } else {
                parents_of_all(world.npcs@, ids@.take(k as int))
            }),
        decreases ids.len() - k,
    {
        proof {
            assert(ids@.take(k as int + 1).drop_last() =~= ids@.take(k as int));
        }
        match world.npc(ids[k]) {
            Some(relative) => {
                let listed = if children {
                    &relative.children
                } else {
                    &relative.parents
                };
                let ghost before = gathered@;
                let mut m: usize = 0;
                while m < listed.len()
                    invariant
                        m <= listed@.len(),
                        gathered@ == before + listed@.take(m as int),
                    decreases listed.len() - m,
                {
                    proof {
                        assert(listed@.take(m as int + 1) =~= listed@.take(m as int).push(listed@[m as int]));
                    }
                    gathered.push(listed[m]);
                    m = m + 1;
                }
                proof {
                    assert(listed@.take(listed@.len() as int) =~= listed@);
                }
            },
            None => {},
        }
        k = k + 1;
    }
    proof {
        assert(ids@.take(ids@.len() as int) =~= ids@);
    }
    gathered
}

/// Any id but `own`.
pub open spec fn other_than(own: NpcId) -> spec_fn(NpcId) -> bool {
    |id: NpcId| id != own
}

/// The parents of the NPC's parents, as the parents found in the world record them.
pub fn grandparents(world: &World, npc: &Npc) -> (ids: Vec<NpcId>)
    ensures
        ids@ == parents_of_all(world.npcs@, npc.parents@),
{
    gather(world, &npc.parents, false)
}

/// The children of the NPC's children, as the children found in the world record them.
pub fn grandchildren(world: &World, npc: &Npc) -> (ids: Vec<NpcId>)
    ensures
        ids@ == children_of_all(world.npcs@, npc.children@),
{
    gather(world, &npc.children, true)
}

/// The other children of the NPC's parents found in the world.
pub fn siblings(world: &World, npc: &Npc) -> (ids: Vec<NpcId>)
    ensures
        ids@ == children_of_all(world.npcs@, npc.parents@).filter(other_than(npc.id)),
{
    let all = gather(world, &npc.parents, true);
    let ghost pick = other_than(npc.id);
    let mut ids: Vec<NpcId> = Vec::new();
    let mut k: usize = 0;
    while k < all.len()
        invariant
            k <= all@.len(),
            pick == other_than(npc.id),
            ids@ == all@.take(k as int).filter(pick),
        decreases all.len() - k,
    {
        proof {
            assert(all@.take(k as int + 1) =~= all@.take(k as int).push(all@[k as int]));
            all@.take(k as int).lemma_filter_push(all@[k as int], pick);
        }
        let id = all[k];
        if id != npc.id {
            ids.push(id);
        }
        proof {
            assert(ids@ =~= all@.take(k as int + 1).filter(pick));
        }
        k = k + 1;
    }
    proof {
        assert(all@.take(all@.len() as int) =~= all@);
    }
    ids
}

/// The ids in ascending order, each once.
pub fn distinct_ascending(ids: &Vec<NpcId>) -> (distinct: Vec<NpcId>)
    ensures
        npc_ids_sorted(distinct@),
        forall|x: NpcId| #[trigger] distinct@.contains(x) <==> ids@.contains(x),
{
    let mut distinct: Vec<NpcId> = Vec::new();
    let mut k: usize = 0;
    while k < ids.len()
        invariant
            k <= ids@.len(),
            npc_ids_sorted(distinct@),
            forall|x: NpcId| #[trigger] distinct@.contains(x) <==> ids@.take(k as int).contains(x),
        decreases ids.len() - k,
    {
        proof {
            broadcast use vstd::seq_lib::group_seq_properties;
            assert(ids@.take(k as int + 1) =~= ids@.take(k as int).push(ids@[k as int]));
        }
        insert_npc_id(&mut distinct, ids[k]);
        k = k + 1;
    }
    proof {
        assert(ids@.take(ids@.len() as int) =~= ids@);
    }
    distinct
}

} // verus!
