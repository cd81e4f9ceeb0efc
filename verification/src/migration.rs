use vstd::prelude::*;

use crate::crisis::listed_index;
use crate::event::WorldEvent;
use crate::id::{NpcId, TownId};
use crate::npc::Npc;
use crate::society::{announce_all, counted_all, noted_all};
use crate::sorted_ids::{insert_npc_id, npc_ids_sorted};
use crate::statistics::YearStatistics;
use crate::town::{Town, TownConnection};
use crate::utility::Action;
use crate::world::{npc_at, town_at, World};

verus! {

/// Distance of a two-hop trip: the sum of both hops, at most ten.
pub open spec fn hop_distance(first: u8, second: u8) -> u8 {
    if first + second > 10 {
        10
    } else {
        (first + second) as u8
    }
}

/// `connection` (from the origin) offers `destination` at `distance`: directly, or through
/// one of the first `limit` connections of the town it leads to.
pub open spec fn offered_by(
    towns: Seq<Town>,
    origin: TownId,
    connection: TownConnection,
    destination: TownId,
    distance: u8,
    limit: int,
) -> bool {
    ||| (connection.destination == destination && destination != origin && distance == connection.distance)
    ||| (town_at(towns, connection.destination) && exists|j: int|
        0 <= j < limit && j < towns[connection.destination.0 as int].neighbors@.len() && {
            let second = #[trigger] towns[connection.destination.0 as int].neighbors@[j];
            &&& second.destination == destination
            &&& destination != origin
            &&& distance == hop_distance(connection.distance, second.distance)
        })
}

/// Offers of the origin's first `count` connections.
pub open spec fn offered_through(towns: Seq<Town>, origin: TownId, destination: TownId, distance: u8, count: int) -> bool {
    let edges = towns[origin.0 as int].neighbors@;
    exists|k: int| 0 <= k < count && k < edges.len() && offered_by(
        towns,
        origin,
        #[trigger] edges[k],
        destination,
        distance,
        towns[edges[k].destination.0 as int].neighbors@.len() as int,
    )
}

/// The origin town exists and offers `destination` at `distance`, directly or in two hops.
pub open spec fn offers(world: World, origin: TownId, destination: TownId, distance: u8) -> bool {
    &&& town_at(world.towns@, origin)
    &&& offered_through(
        world.towns@,
        origin,
        destination,
        distance,
        world.towns@[origin.0 as int].neighbors@.len() as int,
    )
}

/// What the first `count` connections offer, and connection `count` through its first
/// `limit` second hops (its direct offer included).
pub open spec fn offered_so_far(towns: Seq<Town>, origin: TownId, count: int, limit: int) -> Set<(TownId, u8)> {
    Set::new(
        |p: (TownId, u8)|
            offered_through(towns, origin, p.0, p.1, count) || (0 <= count < towns[origin.0 as int].neighbors@.len()
                && offered_by(towns, origin, towns[origin.0 as int].neighbors@[count], p.0, p.1, limit)),
    )
}

/// Ascending by town, each town once.
#[verifier::opaque]
pub open spec fn offers_sorted(list: Seq<(TownId, u8)>) -> bool {
    forall|i: int, j: int| 0 <= i < j < list.len() ==> (#[trigger] list[i]).0.0 < (#[trigger] list[j]).0.0
}

/// Every listed pair was offered.
#[verifier::opaque]
pub open spec fn offers_listed(list: Seq<(TownId, u8)>, offered: Set<(TownId, u8)>) -> bool {
    forall|i: int| 0 <= i < list.len() ==> offered.contains(#[trigger] list[i])
}

/// No offer for a listed town is shorter than the listed distance.
#[verifier::opaque]
pub open spec fn offers_shortest(list: Seq<(TownId, u8)>, offered: Set<(TownId, u8)>) -> bool {
    forall|i: int, d: u8| #![trigger list[i], offered.contains((list[i].0, d))] 0 <= i < list.len() && offered.contains((list[i].0, d))
        ==> list[i].1 <= d
}

/// Every offered town is listed.
#[verifier::opaque]
pub open spec fn offers_complete(list: Seq<(TownId, u8)>, offered: Set<(TownId, u8)>) -> bool {
    forall|p: (TownId, u8)| #[trigger] offered.contains(p) ==> exists|i: int| 0 <= i < list.len() && list[i].0 == p.0
}

/// The list holds, ascending by town and each town once, the shortest distance offered
/// for every town in `offered`.
pub open spec fn shortest_offers(list: Seq<(TownId, u8)>, offered: Set<(TownId, u8)>) -> bool {
    &&& offers_sorted(list)
    &&& offers_listed(list, offered)
    &&& offers_shortest(list, offered)
    &&& offers_complete(list, offered)
}

proof fn lemma_offer_update(
    before: Seq<(TownId, u8)>,
    position: int,
    destination: TownId,
    distance: u8,
    offered: Set<(TownId, u8)>,
)
    requires
        shortest_offers(before, offered),
        0 <= position < before.len(),
        before[position].0 == destination,
    ensures
        shortest_offers(
            if distance < before[position].1 {
                before.update(position, (destination, distance))
            } else {
                before
            },
            offered.insert((destination, distance)),
        ),
{
    let after = if distance < before[position].1 {
        before.update(position, (destination, distance))
    } else {
        before
    };
    let all = offered.insert((destination, distance));
    assert(offers_sorted(after)) by {
        reveal(offers_sorted);
    }
    assert(offers_listed(after, all)) by {
        reveal(offers_listed);
        assert forall|i: int| 0 <= i < after.len() implies all.contains(#[trigger] after[i]) by {
            if i != position {
                assert(after[i] == before[i]);
            }
        }
    }
    assert(offers_shortest(after, all)) by {
    reveal(offers_shortest);
    reveal(offers_sorted);
    assert forall|i: int, d: u8| #![trigger after[i], all.contains((after[i].0, d))] 0 <= i < after.len() && all.contains(
        (after[i].0, d),
    ) implies after[i].1 <= d by {
        if i != position {
            assert(after[i] == before[i]);
            if after[i].0 == destination {
                if i < position {
                    assert(before[i].0.0 < before[position].0.0);
                } else {
                    assert(before[position].0.0 < before[i].0.0);
                }
            }
            assert(offered.contains((before[i].0, d)));
        } else {
            if offered.contains((destination, d)) {
                assert(before[position].1 <= d);
            }
        }
    }
    }
    assert(offers_complete(after, all)) by {
    reveal(offers_complete);
    assert forall|p: (TownId, u8)| #[trigger] all.contains(p) implies exists|i: int| 0 <= i < after.len() && after[i].0 == p.0 by {
        if p.0 == destination {
            assert(after[position].0 == p.0);
        } else {
            let i = choose|i: int| 0 <= i < before.len() && before[i].0 == p.0;
            assert(after[i].0 == p.0);
        }
    }
    }
}

proof fn lemma_offer_insert(
    before: Seq<(TownId, u8)>,
    position: int,
    destination: TownId,
    distance: u8,
    offered: Set<(TownId, u8)>,
)
    requires
        shortest_offers(before, offered),
        0 <= position <= before.len(),
        forall|j: int| 0 <= j < position ==> (#[trigger] before[j]).0.0 < destination.0,
        position < before.len() ==> before[position].0.0 > destination.0,
    ensures
        shortest_offers(before.insert(position, (destination, distance)), offered.insert((destination, distance))),
{
    let after = before.insert(position, (destination, distance));
    let all = offered.insert((destination, distance));
    assert forall|j: int| position <= j < before.len() implies destination.0 < (#[trigger] before[j]).0.0 by {
        reveal(offers_sorted);
        if j > position {
            assert(before[position].0.0 < before[j].0.0);
        }
    }
    assert(offers_sorted(after)) by {
    reveal(offers_sorted);
    assert forall|a: int, b: int| 0 <= a < b < after.len() implies (#[trigger] after[a]).0.0 < (#[trigger] after[b]).0.0 by {
        if b < position {
        } else if b == position {
        } else if a < position {
            assert(after[b] == before[b - 1]);
        } else if a == position {
            assert(after[b] == before[b - 1]);
        } else {
            assert(after[a] == before[a - 1]);
            assert(after[b] == before[b - 1]);
        }
    }
    }
    assert(offers_listed(after, all)) by {
    reveal(offers_listed);
    assert forall|i: int| 0 <= i < after.len() implies all.contains(#[trigger] after[i]) by {
        if i < position {
            assert(after[i] == before[i]);
        } else if i > position {
            assert(after[i] == before[i - 1]);
        }
    }
    }
    assert(offers_shortest(after, all)) by {
    reveal(offers_shortest);
    reveal(offers_complete);
    assert forall|i: int, d: u8| #![trigger after[i], all.contains((after[i].0, d))] 0 <= i < after.len() && all.contains(
        (after[i].0, d),
    ) implies after[i].1 <= d by {
        if i < position {
            assert(after[i] == before[i]);
            assert(offered.contains((before[i].0, d)));
        } else if i > position {
            assert(after[i] == before[i - 1]);
            assert(offered.contains((before[i - 1].0, d)));
        } else {
            if offered.contains((destination, d)) {
                let k = choose|k: int| 0 <= k < before.len() && before[k].0 == destination;
                if k < position {
                    assert(before[k].0.0 < destination.0);
                } else {
                    assert(destination.0 < before[k].0.0);
                }
            }
        }
    }
    }
    assert(offers_complete(after, all)) by {
    reveal(offers_complete);
    assert forall|p: (TownId, u8)| #[trigger] all.contains(p) implies exists|i: int| 0 <= i < after.len() && after[i].0 == p.0 by {
        if p.0 == destination {
            assert(after[position].0 == p.0);
        } else {
            let i = choose|i: int| 0 <= i < before.len() && before[i].0 == p.0;
            if i < position {
                assert(after[i].0 == p.0);
            } else {
                assert(after[i + 1].0 == p.0);
            }
        }
    }
    }
}

/// Adds one offer, keeping the shorter distance for a town already listed.
fn offer(list: &mut Vec<(TownId, u8)>, destination: TownId, distance: u8, offered: Ghost<Set<(TownId, u8)>>)
    requires
        shortest_offers(old(list)@, offered@),
    ensures
        shortest_offers(final(list)@, offered@.insert((destination, distance))),
{
    let mut position: usize = 0;
    while position < list.len() && list[position].0.0 < destination.0
        invariant
            position <= list@.len(),
            forall|j: int| 0 <= j < position ==> (#[trigger] list@[j]).0.0 < destination.0,
        decreases list.len() - position,
    {
        position = position + 1;
    }
    let ghost before = list@;
    if position < list.len() && list[position].0.0 == destination.0 {
        proof {
            assert(before[position as int].0 == destination);
            lemma_offer_update(before, position as int, destination, distance, offered@);
        }
        let current = list[position].1;
        if distance < current {
            list.set(position, (destination, distance));
        }
        return;
    }
    proof {
        lemma_offer_insert(before, position as int, destination, distance, offered@);
    }
    list.insert(position, (destination, distance));
}

/// The towns reachable from `origin` through one connection or two, each with its
/// shortest distance (a two-hop trip counts the sum of its hops, at most ten), ascending
/// by town. The origin itself is never a candidate; an unknown origin has none.
pub fn candidate_towns(world: &World, origin: TownId) -> (candidates: Vec<(TownId, u8)>)
    ensures
        shortest_offers(candidates@, Set::new(|p: (TownId, u8)| offers(*world, origin, p.0, p.1))),
{
    let mut candidates: Vec<(TownId, u8)> = Vec::new();
    let origin_town = match world.town(origin) {
        Some(town) => town,
        None => {
            proof {
                assert(Set::new(|p: (TownId, u8)| offers(*world, origin, p.0, p.1)) =~= Set::empty());
                reveal(offers_sorted);
                reveal(offers_listed);
                reveal(offers_shortest);
                reveal(offers_complete);
            }
            return candidates;
        },
    };
    let ghost towns = world.towns@;
    let ghost edges = origin_town.neighbors@;
    proof {
        assert(Set::new(|p: (TownId, u8)| offered_through(towns, origin, p.0, p.1, 0)) =~= Set::empty());
        reveal(offers_sorted);
        reveal(offers_listed);
        reveal(offers_shortest);
        reveal(offers_complete);
    }
    let mut k: usize = 0;
    while k < origin_town.neighbors.len()
        invariant
            town_at(towns, origin),
            towns == world.towns@,
            *origin_town == towns[origin.0 as int],
            edges == origin_town.neighbors@,
            k <= edges.len(),
            shortest_offers(candidates@, Set::new(|p: (TownId, u8)| offered_through(towns, origin, p.0, p.1, k as int))),
        decreases edges.len() - k,
    {
        let edge = origin_town.neighbors[k];
        proof {
            assert(edge == edges[k as int]);
        }
        let ghost done = Set::new(|p: (TownId, u8)| offered_through(towns, origin, p.0, p.1, k as int));
        if edge.destination != origin {
            offer(&mut candidates, edge.destination, edge.distance, Ghost(done));
        }
        proof {
            if edge.destination != origin {
                assert(done.insert((edge.destination, edge.distance)) =~= offered_so_far(towns, origin, k as int, 0));
            } else {
                assert(done =~= offered_so_far(towns, origin, k as int, 0));
            }
        }
        match world.town(edge.destination) {
            Some(neighbor) => {
                let mut m: usize = 0;
                while m < neighbor.neighbors.len()
                    invariant
                        town_at(towns, origin),
                        towns == world.towns@,
                        *origin_town == towns[origin.0 as int],
                        edges == origin_town.neighbors@,
                        k < edges.len(),
                        edge == edges[k as int],
                        town_at(towns, edge.destination),
                        *neighbor == towns[edge.destination.0 as int],
                        m <= neighbor.neighbors@.len(),
                        shortest_offers(candidates@, offered_so_far(towns, origin, k as int, m as int)),
                    decreases neighbor.neighbors.len() - m,
                {
                    let second = neighbor.neighbors[m];
                    let ghost so_far = offered_so_far(towns, origin, k as int, m as int);
                    proof {
                        assert(second == towns[edge.destination.0 as int].neighbors@[m as int]);
                    }
                    if second.destination != origin {
                        let sum: u16 = edge.distance as u16 + second.distance as u16;
                        let distance: u8 = if sum > 10 {
                            10
                        } else {
                            sum as u8
                        };
                        offer(&mut candidates, second.destination, distance, Ghost(so_far));
                        proof {
                            assert(so_far.insert((second.destination, distance)) =~= offered_so_far(
                                towns,
                                origin,
                                k as int,
                                m + 1,
                            ));
                        }
                    } else {
                        proof {
                            assert(so_far =~= offered_so_far(towns, origin, k as int, m + 1));
                        }
                    }
                    m = m + 1;
                }
                proof {
                    assert(offered_so_far(towns, origin, k as int, neighbor.neighbors@.len() as int) =~= Set::new(
                        |p: (TownId, u8)| offered_through(towns, origin, p.0, p.1, k + 1),
                    ));
                }
            },
            None => {
                proof {
                    assert(offered_so_far(towns, origin, k as int, 0) =~= Set::new(
                        |p: (TownId, u8)| offered_through(towns, origin, p.0, p.1, k + 1),
                    ));
                }
            },
        }
        k = k + 1;
    }
    proof {
        assert(Set::new(|p: (TownId, u8)| offered_through(towns, origin, p.0, p.1, edges.len() as int)) =~= Set::new(
            |p: (TownId, u8)| offers(*world, origin, p.0, p.1),
        ));
    }
    candidates
}

/// An NPC that can move along with a household from `origin`: found, alive, in the world
/// and living there.
pub open spec fn movable_from(npcs: Seq<Npc>, id: NpcId, origin: TownId) -> bool {
    &&& npc_at(npcs, id)
    &&& npcs[id.0 as int].active()
    &&& npcs[id.0 as int].town == origin
}

/// The leader's partner, when it lives with the leader.
pub open spec fn cohabiting_partner(npcs: Seq<Npc>, leader: NpcId, id: NpcId) -> bool {
    let origin = npcs[leader.0 as int].town;
    npcs[leader.0 as int].partner == Some(id) && movable_from(npcs, id, origin)
}

/// A minor child, living with them, of the leader or of the leader's cohabiting partner.
pub open spec fn household_child(npcs: Seq<Npc>, leader: NpcId, id: NpcId) -> bool {
    let origin = npcs[leader.0 as int].town;
    &&& movable_from(npcs, id, origin)
    &&& npcs[id.0 as int].age < 18
    &&& (npcs[leader.0 as int].children@.contains(id) || exists|p: NpcId|
        cohabiting_partner(npcs, leader, p) && #[trigger] npcs[p.0 as int].children@.contains(id))
}

/// The household of an active leader: the leader, the cohabiting partner, and the minor
/// children of either that live with them. An unknown or inactive leader has none.
pub open spec fn in_household(npcs: Seq<Npc>, leader: NpcId, id: NpcId) -> bool {
    &&& npc_at(npcs, leader)
    &&& npcs[leader.0 as int].active()
    &&& (id == leader || cohabiting_partner(npcs, leader, id) || household_child(npcs, leader, id))
}

/// Adds the minor children of `adult` that live in `origin`.
fn add_children(world: &World, adult: &Npc, origin: TownId, members: &mut Vec<NpcId>)
    requires
        npc_ids_sorted(old(members)@),
    ensures
        npc_ids_sorted(final(members)@),
        forall|x: NpcId| #[trigger] final(members)@.contains(x) <==> (old(members)@.contains(x) || (
        adult.children@.contains(x) && movable_from(world.npcs@, x, origin) && world.npcs@[x.0 as int].age < 18)),
{
    let mut c: usize = 0;
    while c < adult.children.len()
        invariant
            c <= adult.children@.len(),
            npc_ids_sorted(members@),
            forall|x: NpcId| #[trigger] members@.contains(x) <==> (old(members)@.contains(x) || (
            adult.children@.take(c as int).contains(x) && movable_from(world.npcs@, x, origin) && world.npcs@[x.0 as int].age
                < 18)),
        decreases adult.children.len() - c,
    {
        let child_id = adult.children[c];
        proof {
            broadcast use vstd::seq_lib::group_seq_properties;
            assert(adult.children@.take(c + 1) =~= adult.children@.take(c as int).push(child_id));
        }
        match world.npc(child_id) {
            Some(child) => {
                if child.alive && child.in_world && child.age < 18 && child.town == origin {
                    insert_npc_id(members, child_id);
                }
            },
            None => {},
        }
        c = c + 1;
    }
    proof {
        assert(adult.children@.take(adult.children@.len() as int) =~= adult.children@);
    }
}

/// The household that moves with `leader`, ascending by id.
pub fn household_members(world: &World, leader_id: NpcId) -> (members: Vec<NpcId>)
    ensures
        npc_ids_sorted(members@),
        forall|x: NpcId| #[trigger] members@.contains(x) <==> in_household(world.npcs@, leader_id, x),
{
    let mut members: Vec<NpcId> = Vec::new();
    let leader = match world.npc(leader_id) {
        Some(leader) => leader,
        None => {
            return members;
        },
    };
    if !leader.alive || !leader.in_world {
        return members;
    }
    let origin = leader.town;
    members.push(leader_id);
    proof {
        assert(members@ =~= seq![leader_id]);
        assert(forall|x: NpcId| #[trigger] members@.contains(x) <==> x == leader_id) by {
            assert forall|x: NpcId| #[trigger] members@.contains(x) <==> x == leader_id by {
                if x == leader_id {
                    assert(members@[0] == x);
                }
            }
        }
    }
    let mut partner_member: Option<NpcId> = None;
    match leader.partner {
        Some(partner_id) => {
            match world.npc(partner_id) {
                Some(partner) => {
                    if partner.alive && partner.in_world && partner.town == origin {
                        insert_npc_id(&mut members, partner_id);
                        partner_member = Some(partner_id);
                    }
                },
                None => {},
            }
        },
        None => {},
    }
    proof {
        assert forall|p: NpcId| partner_member == Some(p) <==> #[trigger] cohabiting_partner(world.npcs@, leader_id, p) by {}
        assert forall|x: NpcId| #[trigger] members@.contains(x) <==> (x == leader_id || partner_member == Some(x)) by {}
    }
    let ghost stage_one = members@;
    add_children(world, leader, origin, &mut members);
    let ghost stage_two = members@;
    match partner_member {
        Some(partner_id) => {
            match world.npc(partner_id) {
                Some(partner) => {
                    add_children(world, partner, origin, &mut members);
                },
                None => {},
            }
        },
        None => {},
    }
    proof {
        assert forall|x: NpcId| #[trigger] members@.contains(x) <==> in_household(world.npcs@, leader_id, x) by {
            if household_child(world.npcs@, leader_id, x) && !leader.children@.contains(x) {
                let p = choose|p: NpcId| cohabiting_partner(world.npcs@, leader_id, p) && #[trigger] world.npcs@[p.0 as int].children@.contains(x);
                assert(partner_member == Some(p));
            }
            if members@.contains(x) && !stage_two.contains(x) {
                let p = partner_member->0;
                assert(cohabiting_partner(world.npcs@, leader_id, p));
                assert(world.npcs@[p.0 as int].children@.contains(x));
            }
        }
    }
    members
}

/// Moves the household of `leader` to `destination` at once; returns the NPCs that
/// moved, ascending. Nothing moves to an unknown town, or when the household already
/// lives there.
pub fn move_household(world: &mut World, leader: NpcId, destination: TownId) -> (moved: Vec<NpcId>)
    ensures
        npc_ids_sorted(moved@),
        forall|x: NpcId| #[trigger] moved@.contains(x) <==> (town_at(old(world).towns@, destination)
            && in_household(old(world).npcs@, leader, x) && old(world).npcs@[leader.0 as int].town != destination),
        final(world).npcs@.len() == old(world).npcs@.len(),
        forall|i: int| 0 <= i < old(world).npcs@.len() ==> #[trigger] final(world).npcs@[i] == (if moved@.contains(
            old(world).npcs@[i].id,
        ) && old(world).npcs@[i].id.0 == i {
            Npc { town: destination, ..old(world).npcs@[i] }
        } else {
            old(world).npcs@[i]
        }),
        *final(world) == (World { npcs: final(world).npcs, ..*old(world) }),
{
    let mut moved: Vec<NpcId> = Vec::new();
    if world.town(destination).is_none() {
        return moved;
    }
    let members = household_members(world, leader);
    let ghost before = world.npcs@;
    let mut i: usize = 0;
    while i < members.len()
        invariant
            town_at(world.towns@, destination),
            npc_ids_sorted(members@),
            forall|x: NpcId| #[trigger] members@.contains(x) <==> in_household(before, leader, x),
            before == old(world).npcs@,
            i <= members@.len(),
            world.npcs@.len() == before.len(),
            *world == (World { npcs: world.npcs, ..*old(world) }),
            npc_ids_sorted(moved@),
            forall|x: NpcId| #[trigger] moved@.contains(x) <==> (members@.take(i as int).contains(x)
                && before[leader.0 as int].town != destination),
            forall|j: int| 0 <= j < before.len() ==> #[trigger] world.npcs@[j] == (if moved@.contains(before[j].id)
                && before[j].id.0 == j {
                Npc { town: destination, ..before[j] }
            } else {
                before[j]
            }),
        decreases members.len() - i,
    {
        let id = members[i];
        proof {
            broadcast use vstd::seq_lib::group_seq_properties;
            assert(members@.take(i + 1) =~= members@.take(i as int).push(id));
            assert(members@.contains(id));
            assert(!members@.take(i as int).contains(id)) by {
                if members@.take(i as int).contains(id) {
                    let k = choose|k: int| 0 <= k < i && members@.take(i as int)[k] == id;
                    assert(members@[k].0 < members@[i as int].0);
                }
            }
            assert forall|j: int| 0 <= j < moved@.len() implies (#[trigger] moved@[j]).0 < id.0 by {
                assert(moved@.contains(moved@[j]));
                let k = choose|k: int| 0 <= k < i && members@.take(i as int)[k] == moved@[j];
                assert(members@[k].0 < members@[i as int].0);
            }
        }
        let ghost current = world.npcs@;
        match world.npc_mut(id) {
            Some(npc) => {
                if npc.town != destination && npc.alive && npc.in_world {
                    npc.town = destination;
                    moved.push(id);
                }
            },
            None => {},
        }
        proof {
            assert(npc_at(before, id));
            assert(before[id.0 as int].town == before[leader.0 as int].town);
            assert forall|x: NpcId| #[trigger] moved@.contains(x) <==> (members@.take(i + 1).contains(x)
                && before[leader.0 as int].town != destination) by {
            }
        }
        i = i + 1;
    }
    proof {
        assert(members@.take(members@.len() as int) =~= members@);
    }
    moved
}

/// Whether the NPC is weighed for moving its household this round: it is not scheduled
/// with an earlier household (an id beyond the flags counts as scheduled), and it is an
/// adult found in the world.
pub fn unscheduled_adult(world: &World, scheduled: &Vec<bool>, id: NpcId) -> (eligible: bool)
    ensures
        eligible == ((id.0 as int) < scheduled@.len() && !scheduled@[id.0 as int] && npc_at(world.npcs@, id)
            && world.npcs@[id.0 as int].adult()),
{
    let index = id.0 as usize;
    if index >= scheduled.len() || scheduled[index] {
        return false;
    }
    match world.npc(id) {
        Some(npc) => npc.is_adult(),
        None => false,
    }
}

/// The flags after each listed NPC that has one is marked as scheduled.
pub open spec fn marked(flags: Seq<bool>, listed: Seq<NpcId>) -> Seq<bool> {
    Seq::new(flags.len(), |j: int| flags[j] || listed_index(listed, j))
}

/// Marks each listed NPC that has a flag as scheduled.
pub fn mark_scheduled(scheduled: &mut Vec<bool>, listed: &Vec<NpcId>)
    ensures
        final(scheduled)@ == marked(old(scheduled)@, listed@),
{
    let ghost start = scheduled@;
    let mut k: usize = 0;
    while k < listed.len()
        invariant
            k <= listed@.len(),
            scheduled@ == marked(start, listed@.take(k as int)),
        decreases listed.len() - k,
    {
        let index = listed[k].0 as usize;
        proof {
            let next = listed@.take(k as int + 1);
            assert(next[k as int] == listed@[k as int]);
            assert forall|j: int| 0 <= j < start.len() implies (listed_index(next, j) == (listed_index(
                listed@.take(k as int),
                j,
            ) || j == index)) by {
                if listed_index(listed@.take(k as int), j) {
                    let m = choose|m: int| 0 <= m < k && (#[trigger] listed@.take(k as int)[m]).0 == j;
                    assert(next[m] == listed@.take(k as int)[m]);
                }
                if listed_index(next, j) && j != index {
                    let m = choose|m: int| 0 <= m < k + 1 && (#[trigger] next[m]).0 == j;
                    assert(listed@.take(k as int)[m] == next[m]);
                }
            }
        }
        if index < scheduled.len() {
            scheduled.set(index, true);
        }
        proof {
            assert(scheduled@ =~= marked(start, listed@.take(k as int + 1)));
        }
        k = k + 1;
    }
    proof {
        assert(listed@.take(listed@.len() as int) =~= listed@);
        assert(scheduled@ =~= marked(start, listed@));
    }
}

/// Each listed NPC leaves the world from its town.
pub open spec fn emigration_events(npcs: Seq<Npc>, listed: Seq<NpcId>) -> Seq<WorldEvent> {
    listed.map_values(|id: NpcId| WorldEvent::ExternalEmigration { npc: id, from: npcs[id.0 as int].town })
}

/// The household of `leader` leaves the world: every member is marked as scheduled, leaves,
/// and is counted and logged as an emigrant from its town. Returns the members, ascending.
pub fn emigrate_household(
    world: &mut World,
    leader: NpcId,
    scheduled: &mut Vec<bool>,
    statistics: &mut YearStatistics,
) -> (left: Vec<NpcId>)
    ensures
        npc_ids_sorted(left@),
        forall|x: NpcId| #[trigger] left@.contains(x) <==> in_household(old(world).npcs@, leader, x),
        final(scheduled)@ == marked(old(scheduled)@, left@),
        final(world).npcs@.len() == old(world).npcs@.len(),
        forall|j: int|
            0 <= j < old(world).npcs@.len() ==> #[trigger] final(world).npcs@[j] == (if listed_index(left@, j) {
                Npc { in_world: false, ..old(world).npcs@[j] }
            } else {
                old(world).npcs@[j]
            }),
        noted_all(
            (World { npcs: final(world).npcs, ..*old(world) }),
            *final(world),
            emigration_events(old(world).npcs@, left@),
        ),
        *final(statistics) == counted_all(*old(statistics), emigration_events(old(world).npcs@, left@)),
{
    let members = household_members(world, leader);
    mark_scheduled(scheduled, &members);
    let ghost start = *world;
    let mut events: Vec<WorldEvent> = Vec::new();
    let mut k: usize = 0;
    while k < members.len()
        invariant
            k <= members@.len(),
            npc_ids_sorted(members@),
            forall|x: NpcId| #[trigger] members@.contains(x) <==> in_household(start.npcs@, leader, x),
            world.npcs@.len() == start.npcs@.len(),
            *world == (World { npcs: world.npcs, ..start }),
            forall|j: int|
                0 <= j < start.npcs@.len() ==> #[trigger] world.npcs@[j] == (if listed_index(members@.take(k as int), j) {
                    Npc { in_world: false, ..start.npcs@[j] }
                } else {
                    start.npcs@[j]
                }),
            events@ == emigration_events(start.npcs@, members@.take(k as int)),
        decreases members.len() - k,
    {
        let member = members[k];
        let ghost before = world.npcs@;
        proof {
            assert(members@.contains(member));
            assert(in_household(start.npcs@, leader, member));
            assert(npc_at(start.npcs@, member) && start.npcs@[member.0 as int].active());
            assert(!listed_index(members@.take(k as int), member.0 as int)) by {
                if listed_index(members@.take(k as int), member.0 as int) {
                    let m = choose|m: int| 0 <= m < k && (#[trigger] members@.take(k as int)[m]).0 == member.0;
                    assert(members@[m].0 < members@[k as int].0);
                }
            }
            assert(emigration_events(start.npcs@, members@.take(k as int + 1)) =~= emigration_events(
                start.npcs@,
                members@.take(k as int),
            ).push(WorldEvent::ExternalEmigration { npc: member, from: start.npcs@[member.0 as int].town }));
        }
        let from = match world.npc(member) {
            Some(npc) => npc.town,
            None => TownId(0),
        };
        match world.npc_mut(member) {
            Some(npc) => {
                npc.leave_world();
            },
            None => {},
        }
        events.push(WorldEvent::ExternalEmigration { npc: member, from });
        proof {
            let next = members@.take(k as int + 1);
            assert forall|j: int| 0 <= j < start.npcs@.len() implies #[trigger] world.npcs@[j] == (if listed_index(
                next,
                j,
            ) {
                Npc { in_world: false, ..start.npcs@[j] }
            } else {
                start.npcs@[j]
            }) by {
                assert(next[k as int] == member);
                if listed_index(members@.take(k as int), j) {
                    let m = choose|m: int| 0 <= m < k && (#[trigger] members@.take(k as int)[m]).0 == j;
                    assert(next[m] == members@.take(k as int)[m]);
                }
                if listed_index(next, j) && j != member.0 {
                    let m = choose|m: int| 0 <= m < k + 1 && (#[trigger] next[m]).0 == j;
                    assert(members@.take(k as int)[m] == next[m]);
                }
            }
        }
        k = k + 1;
    }
    proof {
        assert(members@.take(members@.len() as int) =~= members@);
    }
    announce_all(world, statistics, &events);
    members
}

/// The move that an action intends: to the town of `MoveTown`, or fleeing to the town of
/// `FleeTown`.
pub fn move_intent(action: Option<Action>) -> (intent: Option<(TownId, bool)>)
    ensures
        intent == (match action {
            Some(Action::MoveTown(destination)) => Some((destination, false)),
            Some(Action::FleeTown(destination)) => Some((destination, true)),
            _ => None::<(TownId, bool)>,
        }),
{
    match action {
        Some(Action::MoveTown(destination)) => Some((destination, false)),
        Some(Action::FleeTown(destination)) => Some((destination, true)),
        _ => None,
    }
}

/// The flags after every member of the leader's household is marked as scheduled.
pub open spec fn marked_household(flags: Seq<bool>, npcs: Seq<Npc>, leader: NpcId) -> Seq<bool> {
    Seq::new(flags.len(), |j: int| flags[j] || exists|x: NpcId| #[trigger] in_household(npcs, leader, x) && x.0 == j)
}

/// The leader, found in the world, can take its household to `destination`: a known town
/// other than its own.
pub open spec fn may_relocate(world: World, leader: NpcId, destination: TownId) -> bool {
    &&& npc_at(world.npcs@, leader)
    &&& world.npcs@[leader.0 as int].town != destination
    &&& town_at(world.towns@, destination)
}

/// Takes the household of `leader` to `destination` when it may go there: every member is
/// marked as scheduled and the household moves. Otherwise nothing changes. Returns the
/// NPCs that moved, ascending.
pub fn relocate_household(
    world: &mut World,
    leader: NpcId,
    destination: TownId,
    scheduled: &mut Vec<bool>,
) -> (moved: Vec<NpcId>)
    ensures
        !may_relocate(*old(world), leader, destination) ==> moved@.len() == 0 && *final(world) == *old(world)
            && final(scheduled)@ == old(scheduled)@,
        may_relocate(*old(world), leader, destination) ==> {
            &&& final(scheduled)@ == marked_household(old(scheduled)@, old(world).npcs@, leader)
            &&& npc_ids_sorted(moved@)
            &&& forall|x: NpcId| #[trigger] moved@.contains(x) <==> in_household(old(world).npcs@, leader, x)
            &&& final(world).npcs@.len() == old(world).npcs@.len()
            &&& forall|i: int|
                0 <= i < old(world).npcs@.len() ==> #[trigger] final(world).npcs@[i] == (if moved@.contains(
                    old(world).npcs@[i].id,
                ) && old(world).npcs@[i].id.0 == i {
                    Npc { town: destination, ..old(world).npcs@[i] }
                } else {
                    old(world).npcs@[i]
                })
            &&& *final(world) == (World { npcs: final(world).npcs, ..*old(world) })
        },
{
    let origin = match world.npc(leader) {
        Some(npc) => npc.town,
        None => {
            return Vec::new();
        },
    };
    if destination == origin || world.town(destination).is_none() {
        return Vec::new();
    }
    let members = household_members(world, leader);
    let ghost flags = scheduled@;
    mark_scheduled(scheduled, &members);
    proof {
        assert forall|j: int| 0 <= j < flags.len() implies listed_index(members@, j) == (exists|x: NpcId|
            #[trigger] in_household(world.npcs@, leader, x) && x.0 == j) by {
            if listed_index(members@, j) {
                let k = choose|k: int| 0 <= k < members@.len() && (#[trigger] members@[k]).0 == j;
                assert(members@.contains(members@[k]));
                assert(in_household(world.npcs@, leader, members@[k]));
            }
            if exists|x: NpcId| #[trigger] in_household(world.npcs@, leader, x) && x.0 == j {
                let x = choose|x: NpcId| #[trigger] in_household(world.npcs@, leader, x) && x.0 == j;
                assert(members@.contains(x));
                let k = choose|k: int| 0 <= k < members@.len() && members@[k] == x;
                assert(members@[k].0 == j);
            }
        }
        assert(scheduled@ =~= marked_household(flags, world.npcs@, leader));
    }
    move_household(world, leader, destination)
}

/// Each listed NPC moves from `from` to `to`.
pub open spec fn migration_events(listed: Seq<NpcId>, from: TownId, to: TownId) -> Seq<WorldEvent> {
    listed.map_values(|id: NpcId| WorldEvent::Migration { npc: id, from, to })
}

/// Counts and logs the move of each listed NPC from `from` to `to`, in turn.
pub fn announce_migrations(
    world: &mut World,
    statistics: &mut YearStatistics,
    moved: &Vec<NpcId>,
    from: TownId,
    to: TownId,
)
    ensures
        noted_all(*old(world), *final(world), migration_events(moved@, from, to)),
        *final(statistics) == counted_all(*old(statistics), migration_events(moved@, from, to)),
{
    let mut events: Vec<WorldEvent> = Vec::new();
    let mut k: usize = 0;
    while k < moved.len()
        invariant
            k <= moved@.len(),
            events@ == migration_events(moved@.take(k as int), from, to),
        decreases moved.len() - k,
    {
        proof {
            assert(migration_events(moved@.take(k as int + 1), from, to) =~= migration_events(
                moved@.take(k as int),
                from,
                to,
            ).push(WorldEvent::Migration { npc: moved@[k as int], from, to }));
        }
        events.push(WorldEvent::Migration { npc: moved[k], from, to });
        k = k + 1;
    }
    proof {
        assert(moved@.take(moved@.len() as int) =~= moved@);
    }
    announce_all(world, statistics, &events);
}

} // verus!
