use rand_chacha::ChaCha8Rng;
use vstd::prelude::*;

use crate::disaster::FamineEvent;
use crate::disease::DiseaseEvent;
use crate::event::{TimedWorldEvent, WorldEvent};
use crate::id::{NpcId, TownId};
use crate::npc::{relationships_in_range, Npc, NpcInvariantError};
use crate::random::seeded_rng;
use crate::statistics::{cumulative_is_empty, Statistics};
use crate::town::{Town, TownConnection};
use crate::war::WarEvent;

verus! {

/// The NPC with `id` is stored at index `id`.
pub open spec fn npc_at(npcs: Seq<Npc>, id: NpcId) -> bool {
    id.0 < npcs.len() && npcs[id.0 as int].id == id
}

/// The town with `id` is stored at index `id`.
pub open spec fn town_at(towns: Seq<Town>, id: TownId) -> bool {
    id.0 < towns.len() && towns[id.0 as int].id == id
}

/// Active NPCs found in the world that live in the town with index `town`.
pub open spec fn resident_in(npcs: Seq<Npc>, town: int) -> spec_fn(NpcId) -> bool {
    |id: NpcId| npc_at(npcs, id) && npcs[id.0 as int].town.0 == town
}

/// The ids of the active NPCs, in storage order.
pub open spec fn active_ids(npcs: Seq<Npc>) -> Seq<NpcId>
    decreases npcs.len(),
{
    if npcs.len() == 0 {
        Seq::empty()
    } else if npcs.last().active() {
        active_ids(npcs.drop_last()).push(npcs.last().id)
    } else {
        active_ids(npcs.drop_last())
    }
}

/// When every NPC is active, the active list is every NPC's id, in storage order.
pub proof fn lemma_active_ids_all(npcs: Seq<Npc>)
    requires
        forall|i: int| 0 <= i < npcs.len() ==> (#[trigger] npcs[i]).active(),
    ensures
        active_ids(npcs).len() == npcs.len(),
        forall|j: int| 0 <= j < npcs.len() ==> #[trigger] active_ids(npcs)[j] == npcs[j].id,
    decreases npcs.len(),
{
    if npcs.len() > 0 {
        let rest = npcs.drop_last();
        assert forall|i: int| 0 <= i < rest.len() implies (#[trigger] rest[i]).active() by {
            assert(rest[i] == npcs[i]);
        }
        lemma_active_ids_all(rest);
        assert(npcs.last().active());
        assert forall|j: int| 0 <= j < npcs.len() implies #[trigger] active_ids(npcs)[j] == npcs[j].id by {
            if j < rest.len() {
                assert(active_ids(rest)[j] == rest[j].id);
            }
        }
    }
}

/// The event log after one more event: the oldest quarter is dropped when the log is
/// full.
pub open spec fn logged(events: Seq<WorldEvent>, event: WorldEvent) -> Seq<WorldEvent> {
    if events.len() == 4096 {
        events.skip(1024).push(event)
    } else {
        events.push(event)
    }
}

#[derive(Clone, Copy, Debug, PartialEq, Eq, Structural)]
pub enum InvariantError {
    InvalidNpcId(NpcId),
    InvalidActiveNpc(NpcId),
    DuplicateActiveNpc(NpcId),
    MissingActiveNpc(NpcId),
    InvalidTown(NpcId, TownId),
    InvalidTownId(TownId),
    InvalidTownState(TownId),
    InvalidTownConnection(TownId, TownId),
    ValueOutOfRange(NpcId),
    InvalidNpcState(NpcId, NpcInvariantError),
    SelfRelationship(NpcId),
    InvalidRelationshipTarget(NpcId, NpcId),
    AsymmetricPartner(NpcId, NpcId),
    RelatedPartners(NpcId, NpcId),
    BrokenParentChild(NpcId, NpcId),
}

pub open spec fn town_state_ok(town: Town) -> bool {
    &&& town.population_capacity != 0
    &&& town.jobs <= 10
    &&& town.safety <= 10
    &&& town.education <= 10
    &&& town.freedom <= 10
    &&& town.wealth <= 10
}

pub open spec fn connection_ok(towns: Seq<Town>, town: Town, connection: TownConnection) -> bool {
    &&& connection.destination != town.id
    &&& 1 <= connection.distance <= 10
    &&& town_at(towns, connection.destination)
}

/// The town at `index` carries its index as id, has its values in range, and each of its
/// connections leads to another existing town over a distance within `1..=10`.
pub open spec fn town_ok(towns: Seq<Town>, index: int) -> bool {
    &&& towns[index].id.0 == index
    &&& town_state_ok(towns[index])
    &&& forall|k: int| 0 <= k < towns[index].neighbors@.len() ==> connection_ok(
        towns,
        towns[index],
        #[trigger] towns[index].neighbors@[k],
    )
}

/// The entry of `active_npcs` at `index` names an existing, living NPC in the world.
pub open spec fn active_entry_ok(npcs: Seq<Npc>, id: NpcId) -> bool {
    &&& npc_at(npcs, id)
    &&& npcs[id.0 as int].alive
    &&& npcs[id.0 as int].in_world
}

/// Partners may not be parent and child, nor share a parent.
pub open spec fn related(npc: Npc, partner: Npc) -> bool {
    ||| npc.parents@.contains(partner.id)
    ||| npc.children@.contains(partner.id)
    ||| partner.parents@.contains(npc.id)
    ||| partner.children@.contains(npc.id)
    ||| exists|k: int| 0 <= k < npc.parents@.len() && partner.parents@.contains(#[trigger] npc.parents@[k])
}

pub open spec fn npc_values_in_range(npc: Npc) -> bool {
    &&& npc.attributes.in_range()
    &&& forall|i: int| 0 <= i < npc.beliefs@.len() ==> (#[trigger] npc.beliefs@[i]).valid()
    &&& npc.goal.valid()
    &&& relationships_in_range(npc.relationships@)
}

/// The NPC at `index` is consistent with itself and with the rest of the world.
pub open spec fn npc_ok(world: World, index: int) -> bool {
    let npcs = world.npcs@;
    let npc = npcs[index];
    &&& npc.id.0 == index
    &&& npc.active() ==> world.active_npcs@.contains(npc.id)
    &&& npc.in_world ==> town_at(world.towns@, npc.town)
    &&& npc_values_in_range(npc)
    &&& npc.validation_error() is None
    &&& !npc.relationships@.contains_key(npc.id)
    &&& forall|other: NpcId| #[trigger] npc.relationships@.contains_key(other) ==> npc_at(npcs, other)
    &&& (npc.partner matches Some(p) ==> npc_at(npcs, p) && npcs[p.0 as int].alive && npcs[p.0 as int].partner
        == Some(npc.id) && !related(npc, npcs[p.0 as int]))
    &&& forall|k: int| 0 <= k < npc.parents@.len() ==> npc_at(npcs, #[trigger] npc.parents@[k])
        && npcs[npc.parents@[k].0 as int].children@.contains(npc.id)
    &&& forall|k: int| 0 <= k < npc.children@.len() ==> npc_at(npcs, #[trigger] npc.children@[k])
        && npcs[npc.children@[k].0 as int].parents@.contains(npc.id)
}

/// Every invariant of the world holds.
pub open spec fn world_consistent(world: World) -> bool {
    &&& forall|t: int| 0 <= t < world.towns@.len() ==> #[trigger] town_ok(world.towns@, t)
    &&& forall|j: int| 0 <= j < world.active_npcs@.len() ==> active_entry_ok(world.npcs@, #[trigger] world.active_npcs@[j])
    &&& world.active_npcs@.no_duplicates()
    &&& forall|i: int| 0 <= i < world.npcs@.len() ==> #[trigger] npc_ok(world, i)
}

/// What an error reports is really the case in the world.
pub open spec fn error_holds(world: World, error: InvariantError) -> bool {
    let towns = world.towns@;
    let npcs = world.npcs@;
    match error {
        InvariantError::InvalidTownId(id) => exists|t: int| 0 <= t < towns.len() && #[trigger] towns[t].id == id && id.0 != t,
        InvariantError::InvalidTownState(id) => exists|t: int| 0 <= t < towns.len() && #[trigger] towns[t].id == id
            && !town_state_ok(towns[t]),
        InvariantError::InvalidTownConnection(from, to) => exists|t: int, k: int|
            0 <= t < towns.len() && 0 <= k < towns[t].neighbors@.len() && towns[t].id == from
                && #[trigger] towns[t].neighbors@[k].destination == to && !connection_ok(towns, towns[t], towns[t].neighbors@[k]),
        InvariantError::InvalidActiveNpc(id) => world.active_npcs@.contains(id) && !active_entry_ok(npcs, id),
        InvariantError::DuplicateActiveNpc(id) => exists|j: int, k: int|
            0 <= j < k < world.active_npcs@.len() && #[trigger] world.active_npcs@[j] == id && #[trigger] world.active_npcs@[k] == id,
        InvariantError::InvalidNpcId(id) => (world.active_npcs@.contains(id) && !npc_at(npcs, id)) || exists|i: int|
            0 <= i < npcs.len() && ((#[trigger] npcs[i].id == id && id.0 != i) || (!npc_at(npcs, id) && (npcs[i].partner
                == Some(id) || npcs[i].parents@.contains(id) || npcs[i].children@.contains(id)))),
        InvariantError::MissingActiveNpc(id) => exists|i: int| 0 <= i < npcs.len() && #[trigger] npcs[i].id == id
            && npcs[i].active() && !world.active_npcs@.contains(id),
        InvariantError::InvalidTown(id, town) => exists|i: int| 0 <= i < npcs.len() && #[trigger] npcs[i].id == id
            && npcs[i].in_world && npcs[i].town == town && !town_at(towns, town),
        InvariantError::ValueOutOfRange(id) => exists|i: int| 0 <= i < npcs.len() && #[trigger] npcs[i].id == id
            && !npc_values_in_range(npcs[i]),
        InvariantError::InvalidNpcState(id, e) => exists|i: int| 0 <= i < npcs.len() && #[trigger] npcs[i].id == id
            && npcs[i].validation_error() == Some(e),
        InvariantError::SelfRelationship(id) => exists|i: int| 0 <= i < npcs.len() && #[trigger] npcs[i].id == id
            && npcs[i].relationships@.contains_key(id),
        InvariantError::InvalidRelationshipTarget(id, other) => exists|i: int| 0 <= i < npcs.len() && #[trigger] npcs[i].id == id
            && npcs[i].relationships@.contains_key(other) && !npc_at(npcs, other),
        InvariantError::AsymmetricPartner(id, partner) => exists|i: int| 0 <= i < npcs.len() && #[trigger] npcs[i].id == id
            && npcs[i].partner == Some(partner) && npc_at(npcs, partner) && (!npcs[partner.0 as int].alive
            || npcs[partner.0 as int].partner != Some(id)),
        InvariantError::RelatedPartners(id, partner) => exists|i: int| 0 <= i < npcs.len() && #[trigger] npcs[i].id == id
            && npcs[i].partner == Some(partner) && npc_at(npcs, partner) && related(npcs[i], npcs[partner.0 as int]),
        InvariantError::BrokenParentChild(parent, child) => exists|i: int| 0 <= i < npcs.len() && (
            (#[trigger] npcs[i].id == child && npcs[i].parents@.contains(parent) && npc_at(npcs, parent)
                && !npcs[parent.0 as int].children@.contains(child))
            || (npcs[i].id == parent && npcs[i].children@.contains(child) && npc_at(npcs, child)
                && !npcs[child.0 as int].parents@.contains(parent))),
    }
}

/// The whole state of the simulation.
///
/// An NPC's id is its index in `npcs`, and NPCs are never removed, even after death or
/// emigration.
pub struct World {
    pub year: u64,
    pub month: u8,
    pub npcs: Vec<Npc>,
    pub towns: Vec<Town>,
    pub active_npcs: Vec<NpcId>,
    pub active_diseases: Vec<DiseaseEvent>,
    pub active_wars: Vec<WarEvent>,
    pub active_famines: Vec<FamineEvent>,
    pub statistics: Statistics,
    pub important_events: Vec<WorldEvent>,
    /// Every event of the current year; cleared at the start of the yearly processing.
    pub year_events: Vec<TimedWorldEvent>,
    /// Whether the events of the year are collected, for the timeline.
    pub capture_year_events: bool,
    pub rng: ChaCha8Rng,
}

impl World {
    pub const MAX_RETAINED_EVENTS: usize = 4096;

    pub fn empty(seed: u64) -> (world: Self)
        ensures
            world.year == 0,
            world.month == 0,
            world.npcs@.len() == 0,
            world.towns@.len() == 0,
            world.active_npcs@.len() == 0,
            world.active_diseases@.len() == 0,
            world.active_wars@.len() == 0,
            world.active_famines@.len() == 0,
            world.statistics.initial_population == 0,
            world.statistics.total_unique_npcs == 0,
            world.statistics.years@.len() == 0,
            world.statistics.retain_year_history,
            cumulative_is_empty(world.statistics.cumulative_before_retained),
            world.statistics.years_before_retained == 0,
            world.important_events@.len() == 0,
            world.year_events@.len() == 0,
            !world.capture_year_events,
    {
        World {
            year: 0,
            month: 0,
            npcs: Vec::new(),
            towns: Vec::new(),
            active_npcs: Vec::new(),
            active_diseases: Vec::new(),
            active_wars: Vec::new(),
            active_famines: Vec::new(),
            statistics: Statistics::new(0),
            important_events: Vec::new(),
            year_events: Vec::new(),
            capture_year_events: false,
            rng: seeded_rng(seed),
        }
    }

    /// The NPC with the given id: the one at its index, if that one carries it.
    pub fn npc(&self, id: NpcId) -> (npc: Option<&Npc>)
        ensures
            npc_at(self.npcs@, id) ==> npc == Some(&self.npcs@[id.0 as int]),
            !npc_at(self.npcs@, id) ==> npc is None,
    {
        let index = id.0 as usize;
        if index < self.npcs.len() && self.npcs[index].id == id {
            Some(&self.npcs[index])
        } else {
            None
        }
    }

    pub fn npc_mut(&mut self, id: NpcId) -> (npc: Option<&mut Npc>)
        ensures
            !npc_at(old(self).npcs@, id) ==> npc is None && *final(self) == *old(self),
            npc_at(old(self).npcs@, id) ==> npc is Some && *npc->0 == old(self).npcs@[id.0 as int]
                && final(self).npcs@ == old(self).npcs@.update(id.0 as int, *final(npc->0))
                && *final(self) == (World { npcs: final(self).npcs, ..*old(self) }),
    {
        let index = id.0 as usize;
        if index < self.npcs.len() && self.npcs[index].id == id {
            Some(&mut self.npcs[index])
        } else {
            None
        }
    }

    /// Two different NPCs at once, to change both.
    pub fn two_npcs_mut(&mut self, a: NpcId, b: NpcId) -> (pair: Option<(&mut Npc, &mut Npc)>)
        ensures
            !(a != b && npc_at(old(self).npcs@, a) && npc_at(old(self).npcs@, b)) ==> pair is None && *final(self)
                == *old(self),
            (a != b && npc_at(old(self).npcs@, a) && npc_at(old(self).npcs@, b)) ==> pair is Some
                && *(pair->0).0 == old(self).npcs@[a.0 as int] && *(pair->0).1 == old(self).npcs@[b.0 as int]
                && final(self).npcs@ == old(self).npcs@.update(a.0 as int, *final((pair->0).0)).update(
                b.0 as int,
                *final((pair->0).1),
            ) && *final(self) == (World { npcs: final(self).npcs, ..*old(self) }),
    {
        if a == b {
            return None;
        }
        let ai = a.0 as usize;
        let bi = b.0 as usize;
        if ai >= self.npcs.len() || bi >= self.npcs.len() {
            return None;
        }
        if self.npcs[ai].id != a || self.npcs[bi].id != b {
            return None;
        }
        if ai < bi {
            let (left, right) = self.npcs.as_mut_slice().split_at_mut(bi);
            let first = &mut left[ai];
            let second = &mut right[0];
            Some((first, second))
        } else {
            let (left, right) = self.npcs.as_mut_slice().split_at_mut(ai);
            let second = &mut left[bi];
            let first = &mut right[0];
            Some((first, second))
        }
    }

    pub fn town(&self, id: TownId) -> (town: Option<&Town>)
        ensures
            town_at(self.towns@, id) ==> town == Some(&self.towns@[id.0 as int]),
            !town_at(self.towns@, id) ==> town is None,
    {
        let index = id.0 as usize;
        if index < self.towns.len() && self.towns[index].id == id {
            Some(&self.towns[index])
        } else {
            None
        }
    }

    pub fn town_mut(&mut self, id: TownId) -> (town: Option<&mut Town>)
        ensures
            !town_at(old(self).towns@, id) ==> town is None && *final(self) == *old(self),
            town_at(old(self).towns@, id) ==> town is Some && *town->0 == old(self).towns@[id.0 as int]
                && final(self).towns@ == old(self).towns@.update(id.0 as int, *final(town->0))
                && *final(self) == (World { towns: final(self).towns, ..*old(self) }),
    {
        let index = id.0 as usize;
        if index < self.towns.len() && self.towns[index].id == id {
            Some(&mut self.towns[index])
        } else {
            None
        }
    }

    pub fn active_population(&self) -> (count: usize)
        ensures
            count == self.active_npcs@.len(),
    {
        self.active_npcs.len()
    }

    /// Every NPC ever created, dead and emigrated ones included.
    pub fn total_unique_npcs(&self) -> (count: usize)
        ensures
            count == self.npcs@.len(),
    {
        self.npcs.len()
    }

    /// The active NPCs of each town, in the order of `active_npcs`.
    pub fn residents_by_town(&self) -> (residents: Vec<Vec<NpcId>>)
        ensures
            residents@.len() == self.towns@.len(),
            forall|t: int| 0 <= t < residents@.len() ==> (#[trigger] residents@[t])@ == self.active_npcs@.filter(
                resident_in(self.npcs@, t),
            ),
    {
        let mut residents: Vec<Vec<NpcId>> = Vec::new();
        let mut t: usize = 0;
        while t < self.towns.len()
            invariant
                t <= self.towns@.len(),
                residents@.len() == t,
                forall|u: int| 0 <= u < t ==> (#[trigger] residents@[u])@.len() == 0,
            decreases self.towns.len() - t,
        {
            residents.push(Vec::new());
            t = t + 1;
        }
        proof {
            assert forall|u: int| 0 <= u < residents@.len() implies (#[trigger] residents@[u])@
                == self.active_npcs@.take(0).filter(resident_in(self.npcs@, u)) by {
                assert(self.active_npcs@.take(0) =~= Seq::<NpcId>::empty());
                reveal(Seq::filter);
                assert(residents@[u]@ =~= Seq::<NpcId>::empty());
            }
        }
        let mut i: usize = 0;
        while i < self.active_npcs.len()
            invariant
                i <= self.active_npcs@.len(),
                residents@.len() == self.towns@.len(),
                forall|u: int| 0 <= u < residents@.len() ==> (#[trigger] residents@[u])@
                    == self.active_npcs@.take(i as int).filter(resident_in(self.npcs@, u)),
            decreases self.active_npcs.len() - i,
        {
            let id = self.active_npcs[i];
            let ghost before = residents@;
            proof {
                broadcast use vstd::seq_lib::group_seq_properties;
                assert(self.active_npcs@.take(i + 1) =~= self.active_npcs@.take(i as int).push(id));
                assert forall|u: int| 0 <= u < residents@.len() implies self.active_npcs@.take(i + 1).filter(
                    resident_in(self.npcs@, u),
                ) == (if resident_in(self.npcs@, u)(id) {
                    self.active_npcs@.take(i as int).filter(resident_in(self.npcs@, u)).push(id)
                } else {
                    self.active_npcs@.take(i as int).filter(resident_in(self.npcs@, u))
                }) by {
                    self.active_npcs@.take(i as int).lemma_filter_push(id, resident_in(self.npcs@, u));
                }
            }
            match self.npc(id) {
                Some(npc) => {
                    let town = npc.town.0 as usize;
                    if town < residents.len() {
                        residents[town].push(id);
                        proof {
                            assert forall|u: int| 0 <= u < residents@.len() implies (#[trigger] residents@[u])@
                                == self.active_npcs@.take(i + 1).filter(resident_in(self.npcs@, u)) by {
                                if u != town {
                                    assert(residents@[u] == before[u]);
                                }
                            }
                        }
                    }
                },
                None => {},
            }
            i = i + 1;
        }
        proof {
            assert(self.active_npcs@.take(self.active_npcs@.len() as int) =~= self.active_npcs@);
        }
        residents
    }

    /// The number of active NPCs in each town.
    pub fn town_populations(&self) -> (populations: Vec<usize>)
        ensures
            populations@.len() == self.towns@.len(),
            forall|t: int| 0 <= t < populations@.len() ==> #[trigger] populations@[t]
                == self.active_npcs@.filter(resident_in(self.npcs@, t)).len(),
    {
        let mut populations: Vec<usize> = Vec::new();
        let mut t: usize = 0;
        while t < self.towns.len()
            invariant
                t <= self.towns@.len(),
                populations@.len() == t,
                forall|u: int| 0 <= u < t ==> #[trigger] populations@[u] == 0,
            decreases self.towns.len() - t,
        {
            populations.push(0);
            t = t + 1;
        }
        proof {
            assert forall|u: int| 0 <= u < populations@.len() implies #[trigger] populations@[u]
                == self.active_npcs@.take(0).filter(resident_in(self.npcs@, u)).len() by {
                assert(self.active_npcs@.take(0) =~= Seq::<NpcId>::empty());
                reveal(Seq::filter);
            }
        }
        let mut i: usize = 0;
        while i < self.active_npcs.len()
            invariant
                i <= self.active_npcs@.len(),
                populations@.len() == self.towns@.len(),
                forall|u: int| 0 <= u < populations@.len() ==> #[trigger] populations@[u]
                    == self.active_npcs@.take(i as int).filter(resident_in(self.npcs@, u)).len(),
                forall|u: int| 0 <= u < populations@.len() ==> #[trigger] populations@[u] <= i,
            decreases self.active_npcs.len() - i,
        {
            let id = self.active_npcs[i];
            let ghost before = populations@;
            proof {
                broadcast use vstd::seq_lib::group_seq_properties;
                assert(self.active_npcs@.take(i + 1) =~= self.active_npcs@.take(i as int).push(id));
                assert forall|u: int| 0 <= u < populations@.len() implies self.active_npcs@.take(i + 1).filter(
                    resident_in(self.npcs@, u),
                ) == (if resident_in(self.npcs@, u)(id) {
                    self.active_npcs@.take(i as int).filter(resident_in(self.npcs@, u)).push(id)
                } else {
                    self.active_npcs@.take(i as int).filter(resident_in(self.npcs@, u))
                }) by {
                    self.active_npcs@.take(i as int).lemma_filter_push(id, resident_in(self.npcs@, u));
                }
            }
            match self.npc(id) {
                Some(npc) => {
                    let town = npc.town.0 as usize;
                    if town < populations.len() {
                        let count = populations[town];
                        populations.set(town, count + 1);
                        proof {
                            assert forall|u: int| 0 <= u < populations@.len() implies #[trigger] populations@[u]
                                == self.active_npcs@.take(i + 1).filter(resident_in(self.npcs@, u)).len() by {
                                if u != town {
                                    assert(populations@[u] == before[u]);
                                }
                            }
                        }
                    }
                },
                None => {},
            }
            i = i + 1;
        }
        proof {
            assert(self.active_npcs@.take(self.active_npcs@.len() as int) =~= self.active_npcs@);
        }
        populations
    }

    /// Rebuilds the list of active NPCs from the NPCs themselves.
    pub fn rebuild_active_npcs(&mut self)
        ensures
            final(self).active_npcs@ == active_ids(old(self).npcs@),
            *final(self) == (World { active_npcs: final(self).active_npcs, ..*old(self) }),
    {
        let mut active: Vec<NpcId> = Vec::new();
        let mut i: usize = 0;
        while i < self.npcs.len()
            invariant
                i <= self.npcs@.len(),
                active@ == active_ids(self.npcs@.take(i as int)),
            decreases self.npcs.len() - i,
        {
            proof {
                assert(self.npcs@.take(i + 1).drop_last() =~= self.npcs@.take(i as int));
            }
            if self.npcs[i].alive && self.npcs[i].in_world {
                active.push(self.npcs[i].id);
            }
            i = i + 1;
        }
        proof {
            assert(self.npcs@.take(self.npcs@.len() as int) =~= self.npcs@);
        }
        self.active_npcs = active;
    }

    /// Logs an event: it goes into the year's events when they are collected, and into
    /// the retained log, which drops its oldest quarter when full.
    pub fn push_event(&mut self, event: WorldEvent)
        ensures
            final(self).important_events@ == logged(old(self).important_events@, event),
            final(self).year_events@ == (if old(self).capture_year_events {
                old(self).year_events@.push(TimedWorldEvent { year: old(self).year, month: old(self).month, event })
            } else {
                old(self).year_events@
            }),
            *final(self) == (World {
                important_events: final(self).important_events,
                year_events: final(self).year_events,
                ..*old(self)
            }),
    {
        if self.capture_year_events {
            self.year_events.push(TimedWorldEvent::new(self.year, self.month, event));
        }
        if self.important_events.len() == Self::MAX_RETAINED_EVENTS {
            let mut kept: Vec<WorldEvent> = Vec::new();
            let mut i: usize = Self::MAX_RETAINED_EVENTS / 4;
            while i < self.important_events.len()
                invariant
                    1024 <= i <= self.important_events@.len(),
                    self.important_events@.len() == 4096,
                    kept@ == self.important_events@.subrange(1024, i as int),
                decreases self.important_events.len() - i,
            {
                kept.push(self.important_events[i]);
                i = i + 1;
            }
            proof {
                assert(kept@ =~= self.important_events@.skip(1024));
            }
            self.important_events = kept;
        }
        self.important_events.push(event);
    }
}

impl World {
    fn check_towns(&self) -> (result: Result<(), InvariantError>)
        ensures
            result is Ok <==> forall|t: int| 0 <= t < self.towns@.len() ==> #[trigger] town_ok(self.towns@, t),
            result matches Err(e) ==> error_holds(*self, e),
    {
        let mut t: usize = 0;
        while t < self.towns.len()
            invariant
                t <= self.towns@.len(),
                forall|u: int| 0 <= u < t ==> #[trigger] town_ok(self.towns@, u),
            decreases self.towns.len() - t,
        {
            let town = &self.towns[t];
            if town.id.0 as usize != t {
                proof {
                    assert(self.towns@[t as int].id == town.id);
                    assert(!town_ok(self.towns@, t as int));
                }
                return Err(InvariantError::InvalidTownId(town.id));
            }
            if town.population_capacity == 0 || town.jobs > 10 || town.safety > 10 || town.education > 10
                || town.freedom > 10 || town.wealth > 10 {
                proof {
                    assert(self.towns@[t as int].id == town.id);
                    assert(!town_ok(self.towns@, t as int));
                }
                return Err(InvariantError::InvalidTownState(town.id));
            }
            let mut k: usize = 0;
            while k < town.neighbors.len()
                invariant
                    t < self.towns@.len(),
                    *town == self.towns@[t as int],
                    k <= town.neighbors@.len(),
                    forall|m: int| 0 <= m < k ==> connection_ok(self.towns@, *town, #[trigger] town.neighbors@[m]),
                decreases town.neighbors.len() - k,
            {
                let connection = town.neighbors[k];
                if connection.destination == town.id || connection.distance < 1 || connection.distance > 10
                    || self.town(connection.destination).is_none() {
                    proof {
                        assert(self.towns@[t as int].neighbors@[k as int].destination == connection.destination);
                        assert(!connection_ok(self.towns@, self.towns@[t as int], self.towns@[t as int].neighbors@[k as int]));
                        assert(!town_ok(self.towns@, t as int));
                    }
                    return Err(InvariantError::InvalidTownConnection(town.id, connection.destination));
                }
                k = k + 1;
            }
            proof {
                assert(town_ok(self.towns@, t as int));
            }
            t = t + 1;
        }
        Ok(())
    }

    /// Checks the list of active NPCs; on success, marks which NPC indices it names.
    fn check_active(&self) -> (result: Result<Vec<bool>, InvariantError>)
        ensures
            result is Ok <==> (forall|j: int| 0 <= j < self.active_npcs@.len() ==> active_entry_ok(
                self.npcs@,
                #[trigger] self.active_npcs@[j],
            )) && self.active_npcs@.no_duplicates(),
            result matches Ok(marks) ==> marks@.len() == self.npcs@.len() && forall|x: int|
                0 <= x < marks@.len() ==> (#[trigger] marks@[x] <==> exists|j: int|
                    0 <= j < self.active_npcs@.len() && self.active_npcs@[j].0 == x),
            result matches Err(e) ==> error_holds(*self, e),
    {
        let mut marks: Vec<bool> = Vec::new();
        let mut x: usize = 0;
        while x < self.npcs.len()
            invariant
                x <= self.npcs@.len(),
                marks@.len() == x,
                forall|y: int| 0 <= y < x ==> !(#[trigger] marks@[y]),
            decreases self.npcs.len() - x,
        {
            marks.push(false);
            x = x + 1;
        }
        let mut j: usize = 0;
        while j < self.active_npcs.len()
            invariant
                j <= self.active_npcs@.len(),
                marks@.len() == self.npcs@.len(),
                forall|m: int| 0 <= m < j ==> active_entry_ok(self.npcs@, #[trigger] self.active_npcs@[m]),
                forall|m: int, n: int| 0 <= m < n < j ==> self.active_npcs@[m] != self.active_npcs@[n],
                forall|y: int| 0 <= y < marks@.len() ==> (#[trigger] marks@[y] <==> exists|m: int|
                    0 <= m < j && self.active_npcs@[m].0 == y),
            decreases self.active_npcs.len() - j,
        {
            let id = self.active_npcs[j];
            let index = id.0 as usize;
            if index >= self.npcs.len() {
                proof {
                    assert(self.active_npcs@[j as int] == id);
                }
                return Err(InvariantError::InvalidNpcId(id));
            }
            let npc = &self.npcs[index];
            if npc.id != id || !npc.alive || !npc.in_world {
                proof {
                    assert(self.active_npcs@[j as int] == id);
                }
                return Err(InvariantError::InvalidActiveNpc(id));
            }
            if marks[index] {
                proof {
                    let m = choose|m: int| 0 <= m < j && self.active_npcs@[m].0 == index;
                    assert(active_entry_ok(self.npcs@, self.active_npcs@[m]));
                    assert(self.active_npcs@[m] == id);
                }
                return Err(InvariantError::DuplicateActiveNpc(id));
            }
            proof {
                assert forall|m: int| 0 <= m < j implies self.active_npcs@[m] != id by {
                    if self.active_npcs@[m] == id {
                        assert(marks@[index as int]);
                    }
                }
            }
            marks.set(index, true);
            proof {
                assert forall|y: int| 0 <= y < marks@.len() implies (#[trigger] marks@[y] <==> exists|m: int|
                    0 <= m < j + 1 && self.active_npcs@[m].0 == y) by {
                    if y == index {
                        assert(self.active_npcs@[j as int].0 == y);
                    }
                }
            }
            j = j + 1;
        }
        proof {
            assert(self.active_npcs@.no_duplicates()) by {
                assert forall|m: int, n: int| 0 <= m < self.active_npcs@.len() && 0 <= n < self.active_npcs@.len()
                    && m != n implies self.active_npcs@[m] != self.active_npcs@[n] by {
                    if m < n {
                    } else {
                    }
                }
            }
        }
        Ok(marks)
    }
}

impl World {
    /// Checks one NPC against itself and the rest of the world.
    fn check_npc(&self, index: usize, marks: &Vec<bool>) -> (result: Result<(), InvariantError>)
        requires
            index < self.npcs@.len(),
            marks@.len() == self.npcs@.len(),
            forall|j: int| 0 <= j < self.active_npcs@.len() ==> active_entry_ok(self.npcs@, #[trigger] self.active_npcs@[j]),
            forall|x: int| 0 <= x < marks@.len() ==> (#[trigger] marks@[x] <==> exists|j: int|
                0 <= j < self.active_npcs@.len() && self.active_npcs@[j].0 == x),
        ensures
            result is Ok <==> npc_ok(*self, index as int),
            result matches Err(e) ==> error_holds(*self, e),
    {
        let npc = &self.npcs[index];
        let id = npc.id;
        proof {
            assert(self.npcs@[index as int] == *npc);
        }
        if id.0 as usize != index {
            return Err(InvariantError::InvalidNpcId(id));
        }
        proof {
            if npc.active() {
                if marks@[index as int] {
                    let j = choose|j: int| 0 <= j < self.active_npcs@.len() && self.active_npcs@[j].0 == index;
                    assert(active_entry_ok(self.npcs@, self.active_npcs@[j]));
                    assert(self.active_npcs@[j] == id);
                    assert(self.active_npcs@.contains(id));
                }
                if self.active_npcs@.contains(id) {
                    let j = choose|j: int| 0 <= j < self.active_npcs@.len() && self.active_npcs@[j] == id;
                    assert(self.active_npcs@[j].0 == index);
                }
            }
        }
        if npc.alive && npc.in_world && !marks[index] {
            return Err(InvariantError::MissingActiveNpc(id));
        }
        if npc.in_world && self.town(npc.town).is_none() {
            return Err(InvariantError::InvalidTown(id, npc.town));
        }
        if !npc.values_in_range() {
            return Err(InvariantError::ValueOutOfRange(id));
        }
        match npc.validate() {
            Ok(()) => {},
            Err(error) => {
                return Err(InvariantError::InvalidNpcState(id, error));
            },
        }
        if npc.relationships.contains_key(id) {
            return Err(InvariantError::SelfRelationship(id));
        }
        let keys = npc.relationships.keys();
        let mut k: usize = 0;
        while k < keys.len()
            invariant
                index < self.npcs@.len(),
                *npc == self.npcs@[index as int],
                id == npc.id,
                id.0 == index,
                k <= keys@.len(),
                forall|other: NpcId| #[trigger] keys@.contains(other) <==> npc.relationships@.contains_key(other),
                forall|m: int| 0 <= m < k ==> npc_at(self.npcs@, #[trigger] keys@[m]),
            decreases keys.len() - k,
        {
            let other = keys[k];
            if self.npc(other).is_none() {
                proof {
                    assert(keys@.contains(other));
                }
                return Err(InvariantError::InvalidRelationshipTarget(id, other));
            }
            k = k + 1;
        }
        proof {
            assert forall|other: NpcId| #[trigger] npc.relationships@.contains_key(other) implies npc_at(self.npcs@, other) by {
                assert(keys@.contains(other));
                let m = choose|m: int| 0 <= m < keys@.len() && keys@[m] == other;
            }
        }
        match npc.partner {
            Some(partner_id) => {
                match self.npc(partner_id) {
                    None => {
                        return Err(InvariantError::InvalidNpcId(partner_id));
                    },
                    Some(partner) => {
                        if !partner.alive || partner.partner != Some(id) {
                            return Err(InvariantError::AsymmetricPartner(id, partner_id));
                        }
                        let mut related_found = contains_id(&npc.parents, partner_id) || contains_id(&npc.children, partner_id)
                            || contains_id(&partner.parents, id) || contains_id(&partner.children, id);
                        let mut p: usize = 0;
                        while p < npc.parents.len()
                            invariant
                                index < self.npcs@.len(),
                                *npc == self.npcs@[index as int],
                                id == npc.id,
                                p <= npc.parents@.len(),
                                related_found <==> (npc.parents@.contains(partner_id) || npc.children@.contains(partner_id)
                                    || partner.parents@.contains(id) || partner.children@.contains(id) || exists|q: int|
                                    0 <= q < p && partner.parents@.contains(#[trigger] npc.parents@[q])),
                            decreases npc.parents.len() - p,
                        {
                            if contains_id(&partner.parents, npc.parents[p]) {
                                related_found = true;
                            }
                            p = p + 1;
                        }
                        if related_found {
                            return Err(InvariantError::RelatedPartners(id, partner_id));
                        }
                    },
                }
            },
            None => {},
        }
        let mut p: usize = 0;
        while p < npc.parents.len()
            invariant
                index < self.npcs@.len(),
                *npc == self.npcs@[index as int],
                id == npc.id,
                id.0 == index,
                p <= npc.parents@.len(),
                forall|q: int| 0 <= q < p ==> npc_at(self.npcs@, #[trigger] npc.parents@[q])
                    && self.npcs@[npc.parents@[q].0 as int].children@.contains(id),
            decreases npc.parents.len() - p,
        {
            let parent_id = npc.parents[p];
            match self.npc(parent_id) {
                None => {
                    proof {
                        assert(npc.parents@.contains(parent_id));
                    }
                    return Err(InvariantError::InvalidNpcId(parent_id));
                },
                Some(parent) => {
                    if !contains_id(&parent.children, id) {
                        proof {
                            assert(npc.parents@.contains(parent_id));
                        }
                        return Err(InvariantError::BrokenParentChild(parent_id, id));
                    }
                },
            }
            p = p + 1;
        }
        let mut c: usize = 0;
        while c < npc.children.len()
            invariant
                index < self.npcs@.len(),
                *npc == self.npcs@[index as int],
                id == npc.id,
                id.0 == index,
                c <= npc.children@.len(),
                forall|q: int| 0 <= q < c ==> npc_at(self.npcs@, #[trigger] npc.children@[q])
                    && self.npcs@[npc.children@[q].0 as int].parents@.contains(id),
            decreases npc.children.len() - c,
        {
            let child_id = npc.children[c];
            match self.npc(child_id) {
                None => {
                    proof {
                        assert(npc.children@.contains(child_id));
                    }
                    return Err(InvariantError::InvalidNpcId(child_id));
                },
                Some(child) => {
                    if !contains_id(&child.parents, id) {
                        proof {
                            assert(npc.children@.contains(child_id));
                        }
                        return Err(InvariantError::BrokenParentChild(id, child_id));
                    }
                },
            }
            c = c + 1;
        }
        Ok(())
    }

    /// Checks every invariant of the world: the towns, the list of active NPCs, and each
    /// NPC with its links to others. Succeeds exactly when all hold; an error names a
    /// broken one.
    pub fn validate(&self) -> (result: Result<(), InvariantError>)
        ensures
            result is Ok <==> world_consistent(*self),
            result matches Err(e) ==> error_holds(*self, e),
    {
        match self.check_towns() {
            Ok(()) => {},
            Err(error) => {
                return Err(error);
            },
        }
        let marks = match self.check_active() {
            Ok(marks) => marks,
            Err(error) => {
                return Err(error);
            },
        };
        let mut i: usize = 0;
        while i < self.npcs.len()
            invariant
                i <= self.npcs@.len(),
                forall|t: int| 0 <= t < self.towns@.len() ==> #[trigger] town_ok(self.towns@, t),
                forall|j: int| 0 <= j < self.active_npcs@.len() ==> active_entry_ok(self.npcs@, #[trigger] self.active_npcs@[j]),
                self.active_npcs@.no_duplicates(),
                marks@.len() == self.npcs@.len(),
                forall|x: int| 0 <= x < marks@.len() ==> (#[trigger] marks@[x] <==> exists|j: int|
                    0 <= j < self.active_npcs@.len() && self.active_npcs@[j].0 == x),
                forall|m: int| 0 <= m < i ==> #[trigger] npc_ok(*self, m),
            decreases self.npcs.len() - i,
        {
            match self.check_npc(i, &marks) {
                Ok(()) => {},
                Err(error) => {
                    return Err(error);
                },
            }
            i = i + 1;
        }
        Ok(())
    }
}

pub(crate) fn contains_id(ids: &Vec<NpcId>, id: NpcId) -> (found: bool)
    ensures
        found == ids@.contains(id),
{
    let mut i: usize = 0;
    while i < ids.len()
        invariant
            i <= ids@.len(),
            forall|j: int| 0 <= j < i ==> (#[trigger] ids@[j]) != id,
        decreases ids.len() - i,
    {
        if ids[i] == id {
            return true;
        }
        i = i + 1;
    }
    false
}

} // verus!
