use vstd::prelude::*;

use crate::id::{NpcId, TownId};

verus! {

/// Town ids strictly ascending: sorted and without duplicates.
pub open spec fn town_ids_sorted(ids: Seq<TownId>) -> bool {
    forall|i: int, j: int| 0 <= i < j < ids.len() ==> (#[trigger] ids[i]).0 < (#[trigger] ids[j]).0
}

/// NPC ids strictly ascending: sorted and without duplicates.
pub open spec fn npc_ids_sorted(ids: Seq<NpcId>) -> bool {
    forall|i: int, j: int| 0 <= i < j < ids.len() ==> (#[trigger] ids[i]).0 < (#[trigger] ids[j]).0
}

/// Inserts `id` into a strictly ascending list unless it is already there.
pub fn insert_town_id(ids: &mut Vec<TownId>, id: TownId)
    requires
        town_ids_sorted(old(ids)@),
    ensures
        town_ids_sorted(final(ids)@),
        forall|x| #[trigger] final(ids)@.contains(x) <==> (old(ids)@.contains(x) || x == id),
{
    let mut position: usize = 0;
    while position < ids.len() && ids[position].0 < id.0
        invariant
            position <= ids@.len(),
            forall|j: int| 0 <= j < position ==> (#[trigger] ids@[j]).0 < id.0,
        decreases ids.len() - position,
    {
        position = position + 1;
    }
    let ghost before = ids@;
    if position < ids.len() && ids[position].0 == id.0 {
        proof {
            assert(ids@[position as int] == id);
        }
        return;
    }
    ids.insert(position, id);
    proof {
        assert(forall|j: int| position <= j < before.len() ==> id.0 < (#[trigger] before[j]).0) by {
            assert forall|j: int| position <= j < before.len() implies id.0 < (#[trigger] before[j]).0 by {
                if j > position {
                    assert(before[position as int].0 < before[j].0);
                }
            }
        }
        assert(town_ids_sorted(ids@)) by {
            assert forall|a: int, b: int| 0 <= a < b < ids@.len() implies (#[trigger] ids@[a]).0
                < (#[trigger] ids@[b]).0 by {
                if b < position {
                } else if b == position {
                } else if a < position {
                    assert(ids@[b] == before[b - 1]);
                } else if a == position {
                    assert(ids@[b] == before[b - 1]);
                } else {
                    assert(ids@[a] == before[a - 1]);
                    assert(ids@[b] == before[b - 1]);
                }
            }
        }
        assert forall|x: TownId| #[trigger] ids@.contains(x) <==> (before.contains(x) || x == id) by {
            {
                if ids@.contains(x) {
                    let k = choose|k: int| 0 <= k < ids@.len() && ids@[k] == x;
                    if k < position {
                        assert(before[k] == x);
                    } else if k > position {
                        assert(before[k - 1] == x);
                    }
                }
                if before.contains(x) {
                    let k = choose|k: int| 0 <= k < before.len() && before[k] == x;
                    if k < position {
                        assert(ids@[k] == x);
                    } else {
                        assert(ids@[k + 1] == x);
                    }
                }
                if x == id {
                    assert(ids@[position as int] == x);
                }
            }
        }
    }
}

/// Inserts `id` into a strictly ascending list unless it is already there.
pub fn insert_npc_id(ids: &mut Vec<NpcId>, id: NpcId)
    requires
        npc_ids_sorted(old(ids)@),
    ensures
        npc_ids_sorted(final(ids)@),
        forall|x| #[trigger] final(ids)@.contains(x) <==> (old(ids)@.contains(x) || x == id),
{
    let mut position: usize = 0;
    while position < ids.len() && ids[position].0 < id.0
        invariant
            position <= ids@.len(),
            forall|j: int| 0 <= j < position ==> (#[trigger] ids@[j]).0 < id.0,
        decreases ids.len() - position,
    {
        position = position + 1;
    }
    let ghost before = ids@;
    if position < ids.len() && ids[position].0 == id.0 {
        proof {
            assert(ids@[position as int] == id);
        }
        return;
    }
    ids.insert(position, id);
    proof {
        assert(forall|j: int| position <= j < before.len() ==> id.0 < (#[trigger] before[j]).0) by {
            assert forall|j: int| position <= j < before.len() implies id.0 < (#[trigger] before[j]).0 by {
                if j > position {
                    assert(before[position as int].0 < before[j].0);
                }
            }
        }
        assert(npc_ids_sorted(ids@)) by {
            assert forall|a: int, b: int| 0 <= a < b < ids@.len() implies (#[trigger] ids@[a]).0
                < (#[trigger] ids@[b]).0 by {
                if b < position {
                } else if b == position {
                } else if a < position {
                    assert(ids@[b] == before[b - 1]);
                } else if a == position {
                    assert(ids@[b] == before[b - 1]);
                } else {
                    assert(ids@[a] == before[a - 1]);
                    assert(ids@[b] == before[b - 1]);
                }
            }
        }
        assert forall|x: NpcId| #[trigger] ids@.contains(x) <==> (before.contains(x) || x == id) by {
            {
                if ids@.contains(x) {
                    let k = choose|k: int| 0 <= k < ids@.len() && ids@[k] == x;
                    if k < position {
                        assert(before[k] == x);
                    } else if k > position {
                        assert(before[k - 1] == x);
                    }
                }
                if before.contains(x) {
                    let k = choose|k: int| 0 <= k < before.len() && before[k] == x;
                    if k < position {
                        assert(ids@[k] == x);
                    } else {
                        assert(ids@[k + 1] == x);
                    }
                }
                if x == id {
                    assert(ids@[position as int] == x);
                }
            }
        }
    }
}

} // verus!
