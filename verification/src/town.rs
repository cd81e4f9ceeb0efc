use vstd::prelude::*;

use crate::belief::Belief;
use crate::economy::TownEconomy;
use crate::id::TownId;

verus! {

pub open spec fn min_u8(a: u8, b: u8) -> u8 {
    if a < b {
        a
    } else {
        b
    }
}

pub open spec fn clamped_distance(distance: u8) -> u8 {
    if distance < 1 {
        1
    } else if distance > 10 {
        10
    } else {
        distance
    }
}

/// An edge of the sparse town graph; the distance is within `1..=10`.
#[derive(Clone, Copy, Debug, PartialEq, Eq, Hash, Structural)]
pub struct TownConnection {
    pub destination: TownId,
    pub distance: u8,
}

impl TownConnection {
    pub fn new(destination: TownId, distance: u8) -> (connection: Self)
        ensures
            connection == (TownConnection { destination, distance: clamped_distance(distance) }),
    {
        let distance: u8 = if distance < 1 {
            1
        } else if distance > 10 {
            10
        } else {
            distance
        };
        TownConnection { destination, distance }
    }
}

/// Temporary loss of town function from disasters, disease or war.
///
/// The base parameters stay unchanged; the `effective_*` values subtract this.
#[derive(Clone, Copy, Debug, Default, PartialEq, Eq, Structural)]
pub struct TownDamage {
    pub jobs_loss: u8,
    pub safety_loss: u8,
    pub capacity_loss: u32,
    pub remaining_months: u16,
}

impl TownDamage {
    pub open spec fn none() -> TownDamage {
        TownDamage { jobs_loss: 0, safety_loss: 0, capacity_loss: 0, remaining_months: 0 }
    }

    pub open spec fn active(&self) -> bool {
        self.remaining_months > 0 && (self.jobs_loss > 0 || self.safety_loss > 0
            || self.capacity_loss > 0)
    }

    pub fn new(jobs_loss: u8, safety_loss: u8, capacity_loss: u32, remaining_months: u16) -> (damage: Self)
        ensures
            damage == (TownDamage {
                jobs_loss: min_u8(jobs_loss, 10),
                safety_loss: min_u8(safety_loss, 10),
                capacity_loss,
                remaining_months,
            }),
    {
        TownDamage {
            jobs_loss: if jobs_loss < 10 {
                jobs_loss
            } else {
                10
            },
            safety_loss: if safety_loss < 10 {
                safety_loss
            } else {
                10
            },
            capacity_loss,
            remaining_months,
        }
    }

    pub fn is_active(&self) -> (active: bool)
        ensures
            active == self.active(),
    {
        self.remaining_months > 0 && (self.jobs_loss > 0 || self.safety_loss > 0
            || self.capacity_loss > 0)
    }
}

#[derive(Clone, Debug, PartialEq, Eq)]
pub struct Town {
    pub id: TownId,
    pub name: String,
    pub population_capacity: u32,
    pub jobs: u8,
    pub safety: u8,
    pub education: u8,
    pub freedom: u8,
    pub wealth: u8,
    pub culture: Vec<Belief>,
    pub neighbors: Vec<TownConnection>,
    pub temporary_damage: TownDamage,
    /// The town's markets and treasury.
    pub economy: TownEconomy,
}

/// Connections strictly ascending by destination: each destination at most once.
pub open spec fn connections_sorted(neighbors: Seq<TownConnection>) -> bool {
    forall|i: int, j: int| 0 <= i < j < neighbors.len() ==> (#[trigger] neighbors[i]).destination.0
        < (#[trigger] neighbors[j]).destination.0
}

/// The first connection in `neighbors` that leads to `destination`.
pub open spec fn first_connection_index(neighbors: Seq<TownConnection>, destination: TownId, index: int) -> bool {
    &&& 0 <= index < neighbors.len()
    &&& neighbors[index].destination == destination
    &&& forall|j: int| 0 <= j < index ==> (#[trigger] neighbors[j]).destination != destination
}

pub open spec fn has_connection(neighbors: Seq<TownConnection>, destination: TownId) -> bool {
    exists|i: int| 0 <= i < neighbors.len() && (#[trigger] neighbors[i]).destination == destination
}

impl Town {
    /// The town's own parameters are within range and its connections are in normal form:
    /// sorted, without duplicates or a loop to itself, with distances in `1..=10`.
    pub open spec fn well_formed(&self) -> bool {
        &&& self.population_capacity >= 1
        &&& self.jobs <= 10
        &&& self.safety <= 10
        &&& self.education <= 10
        &&& self.freedom <= 10
        &&& self.wealth <= 10
        &&& connections_sorted(self.neighbors@)
        &&& forall|i: int| 0 <= i < self.neighbors@.len() ==> (#[trigger] self.neighbors@[i]).destination
            != self.id && 1 <= self.neighbors@[i].distance <= 10
    }

    pub open spec fn effective_jobs_spec(&self) -> u8 {
        let base = min_u8(self.jobs, 10);
        if base >= self.temporary_damage.jobs_loss {
            (base - self.temporary_damage.jobs_loss) as u8
        } else {
            0
        }
    }

    pub open spec fn effective_safety_spec(&self) -> u8 {
        let base = min_u8(self.safety, 10);
        if base >= self.temporary_damage.safety_loss {
            (base - self.temporary_damage.safety_loss) as u8
        } else {
            0
        }
    }

    pub open spec fn effective_capacity_spec(&self) -> u32 {
        let base: int = if self.population_capacity == 0 {
            1
        } else {
            self.population_capacity as int
        };
        let reduced = base - self.temporary_damage.capacity_loss;
        if reduced < 1 {
            1
        } else {
            reduced as u32
        }
    }

    pub fn new(
        id: TownId,
        name: String,
        population_capacity: u32,
        jobs: u8,
        safety: u8,
        education: u8,
        freedom: u8,
        wealth: u8,
    ) -> (town: Self)
        ensures
            town.id == id,
            town.name@ == name@,
            town.population_capacity == (if population_capacity == 0 {
                1
            } else {
                population_capacity
            }),
            town.jobs == min_u8(jobs, 10),
            town.safety == min_u8(safety, 10),
            town.education == min_u8(education, 10),
            town.freedom == min_u8(freedom, 10),
            town.wealth == min_u8(wealth, 10),
            town.culture@.len() == 0,
            town.neighbors@.len() == 0,
            town.temporary_damage == TownDamage::none(),
            town.economy == TownEconomy::new_spec(town.wealth, town.population_capacity),
            town.well_formed(),
    {
        let capacity: u32 = if population_capacity == 0 {
            1
        } else {
            population_capacity
        };
        let wealth: u8 = clamp_ten(wealth);
        Town {
            id,
            name,
            population_capacity: capacity,
            jobs: clamp_ten(jobs),
            safety: clamp_ten(safety),
            education: clamp_ten(education),
            freedom: clamp_ten(freedom),
            wealth,
            culture: Vec::new(),
            neighbors: Vec::new(),
            temporary_damage: TownDamage { jobs_loss: 0, safety_loss: 0, capacity_loss: 0, remaining_months: 0 },
            economy: TownEconomy::new(wealth, capacity),
        }
    }

    pub fn effective_jobs(&self) -> (jobs: u8)
        ensures
            jobs == self.effective_jobs_spec(),
    {
        clamp_ten(self.jobs).saturating_sub(self.temporary_damage.jobs_loss)
    }

    pub fn effective_safety(&self) -> (safety: u8)
        ensures
            safety == self.effective_safety_spec(),
    {
        clamp_ten(self.safety).saturating_sub(self.temporary_damage.safety_loss)
    }

    pub fn effective_education(&self) -> (education: u8)
        ensures
            education == min_u8(self.education, 10),
    {
        clamp_ten(self.education)
    }

    pub fn effective_freedom(&self) -> (freedom: u8)
        ensures
            freedom == min_u8(self.freedom, 10),
    {
        clamp_ten(self.freedom)
    }

    pub fn effective_wealth(&self) -> (wealth: u8)
        ensures
            wealth == min_u8(self.wealth, 10),
    {
        clamp_ten(self.wealth)
    }

    /// Population capacity after the temporary damage; never below one.
    pub fn effective_capacity(&self) -> (capacity: u32)
        ensures
            capacity == self.effective_capacity_spec(),
            capacity >= 1,
    {
        let base: u32 = if self.population_capacity == 0 {
            1
        } else {
            self.population_capacity
        };
        let reduced: u32 = base.saturating_sub(self.temporary_damage.capacity_loss);
        if reduced == 0 {
            1
        } else {
            reduced
        }
    }

    pub fn effective_population_capacity(&self) -> (capacity: u32)
        ensures
            capacity == self.effective_capacity_spec(),
    {
        self.effective_capacity()
    }

    /// The connection to `destination`, if there is one (the first such).
    pub fn connection_to(&self, destination: TownId) -> (connection: Option<&TownConnection>)
        ensures
            connection is None <==> !has_connection(self.neighbors@, destination),
            connection matches Some(c) ==> exists|i: int| first_connection_index(self.neighbors@, destination, i)
                && self.neighbors@[i] == *c,
    {
        let mut i: usize = 0;
        while i < self.neighbors.len()
            invariant
                i <= self.neighbors@.len(),
                forall|j: int| 0 <= j < i ==> (#[trigger] self.neighbors@[j]).destination != destination,
            decreases self.neighbors.len() - i,
        {
            if self.neighbors[i].destination == destination {
                proof {
                    assert(first_connection_index(self.neighbors@, destination, i as int));
                }
                return Some(&self.neighbors[i]);
            }
            i = i + 1;
        }
        None
    }

    /// The town after new damage on top of the current one: losses never exceed the base
    /// value (capacity keeps at least one), and the damage lasts as long as the longer of
    /// the two. Inactive damage leaves it as it is.
    pub open spec fn damaged(self, damage: TownDamage) -> Town {
        if !damage.active() {
            self
        } else {
            Town {
                temporary_damage: TownDamage {
                    jobs_loss: min_u8(
                        sat_add_u8(self.temporary_damage.jobs_loss, damage.jobs_loss),
                        min_u8(self.jobs, 10),
                    ),
                    safety_loss: min_u8(
                        sat_add_u8(self.temporary_damage.safety_loss, damage.safety_loss),
                        min_u8(self.safety, 10),
                    ),
                    capacity_loss: min_u32(
                        self.temporary_damage.capacity_loss.saturating_add(damage.capacity_loss),
                        (if self.population_capacity == 0 {
                            0
                        } else {
                            self.population_capacity - 1
                        }) as u32,
                    ),
                    remaining_months: if self.temporary_damage.remaining_months
                        >= damage.remaining_months {
                        self.temporary_damage.remaining_months
                    } else {
                        damage.remaining_months
                    },
                },
                ..self
            }
        }
    }

    /// Applies new damage on top of the current one.
    pub fn apply_damage(&mut self, damage: TownDamage)
        ensures
            *final(self) == old(self).damaged(damage),
    {
        if !damage.is_active() {
            return;
        }
        let jobs_cap = clamp_ten(self.jobs);
        let jobs_loss = self.temporary_damage.jobs_loss.saturating_add(damage.jobs_loss);
        self.temporary_damage.jobs_loss = if jobs_loss < jobs_cap {
            jobs_loss
        } else {
            jobs_cap
        };
        let safety_cap = clamp_ten(self.safety);
        let safety_loss = self.temporary_damage.safety_loss.saturating_add(damage.safety_loss);
        self.temporary_damage.safety_loss = if safety_loss < safety_cap {
            safety_loss
        } else {
            safety_cap
        };
        let capacity_cap: u32 = if self.population_capacity == 0 {
            0
        } else {
            self.population_capacity - 1
        };
        let capacity_loss = self.temporary_damage.capacity_loss.saturating_add(damage.capacity_loss);
        self.temporary_damage.capacity_loss = if capacity_loss < capacity_cap {
            capacity_loss
        } else {
            capacity_cap
        };
        if damage.remaining_months > self.temporary_damage.remaining_months {
            self.temporary_damage.remaining_months = damage.remaining_months;
        }
    }

    /// Recovers for one month. Returns whether damage remains afterwards; once none
    /// remains the damage is reset entirely.
    pub fn recover(&mut self) -> (still_damaged: bool)
        ensures
            still_damaged == (old(self).temporary_damage.active()
                && old(self).temporary_damage.remaining_months > 1),
            still_damaged ==> *final(self) == (Town {
                temporary_damage: TownDamage {
                    remaining_months: (old(self).temporary_damage.remaining_months - 1) as u16,
                    ..old(self).temporary_damage
                },
                ..*old(self)
            }),
            !still_damaged ==> *final(self) == (Town { temporary_damage: TownDamage::none(), ..*old(self) }),
    {
        if !self.temporary_damage.is_active() {
            self.temporary_damage = TownDamage { jobs_loss: 0, safety_loss: 0, capacity_loss: 0, remaining_months: 0 };
            return false;
        }
        self.temporary_damage.remaining_months = self.temporary_damage.remaining_months - 1;
        if self.temporary_damage.remaining_months == 0 {
            self.temporary_damage = TownDamage { jobs_loss: 0, safety_loss: 0, capacity_loss: 0, remaining_months: 0 };
            return false;
        }
        true
    }
}

/// Inserting a connection to a new destination, other than the town itself and within
/// `1..=10`, into a weakly sorted place of a strictly sorted list keeps the list strictly
/// sorted.
proof fn lemma_insert_new_destination(before: Seq<TownConnection>, p: int, c: TownConnection, own: TownId)
    requires
        connections_sorted(before),
        forall|i: int| 0 <= i < before.len() ==> (#[trigger] before[i]).destination != own && 1 <= before[i].distance <= 10,
        0 <= p <= before.len(),
        connections_weakly_sorted(before.insert(p, c)),
        !has_connection(before, c.destination),
        c.destination != own,
        1 <= c.distance <= 10,
    ensures
        connections_sorted(before.insert(p, c)),
        forall|i: int| 0 <= i < before.insert(p, c).len() ==> (#[trigger] before.insert(p, c)[i]).destination != own && 1
            <= before.insert(p, c)[i].distance <= 10,
{
    let after = before.insert(p, c);
    assert forall|a: int, b: int| 0 <= a < b < after.len() implies (#[trigger] after[a]).destination.0
        < (#[trigger] after[b]).destination.0 by {
        assert(after[a].destination.0 <= after[b].destination.0);
        if a == p {
            assert(after[b] == before[b - 1]);
            assert(before[b - 1].destination != c.destination);
        } else if b == p {
            assert(after[a] == before[a]);
            assert(before[a].destination != c.destination);
        } else {
            let a0 = if a < p { a } else { a - 1 };
            let b0 = if b < p { b } else { b - 1 };
            assert(after[a] == before[a0]);
            assert(after[b] == before[b0]);
            assert(a0 < b0);
        }
    }
    assert forall|i: int| 0 <= i < after.len() implies (#[trigger] after[i]).destination != own && 1 <= after[i].distance
        <= 10 by {
        if i < p {
            assert(after[i] == before[i]);
        } else if i > p {
            assert(after[i] == before[i - 1]);
        }
    }
}

/// Connections ascending by destination, equal destinations allowed.
pub open spec fn connections_weakly_sorted(neighbors: Seq<TownConnection>) -> bool {
    forall|i: int, j: int| 0 <= i < j < neighbors.len() ==> (#[trigger] neighbors[i]).destination.0
        <= (#[trigger] neighbors[j]).destination.0
}

/// `normalized` is the normal form of `given` for a town with id `own`: loops removed,
/// distances clamped, sorted by destination, and only the first connection kept for each
/// destination.
pub open spec fn normalized_connections(given: Seq<TownConnection>, own: TownId, normalized: Seq<TownConnection>) -> bool {
    &&& connections_sorted(normalized)
    &&& forall|k: int| 0 <= k < normalized.len() ==> (#[trigger] normalized[k]).destination != own
        && exists|j: int| first_connection_index(given, normalized[k].destination, j)
            && normalized[k].distance == clamped_distance(given[j].distance)
    &&& forall|j: int| 0 <= j < given.len() && (#[trigger] given[j]).destination != own
        ==> has_connection(normalized, given[j].destination)
}

/// `after` is `before` normalized: its capacity at least one, its values at most ten,
/// its damage within its values, and its connections in normal form; its name, culture and
/// economy as they were.
pub open spec fn town_normalized(before: Town, after: Town) -> bool {
    let capacity: u32 = if before.population_capacity == 0 {
        1
    } else {
        before.population_capacity
    };
    let jobs = min_u8(before.jobs, 10);
    let safety = min_u8(before.safety, 10);
    &&& after == (Town {
        population_capacity: capacity,
        jobs,
        safety,
        education: min_u8(before.education, 10),
        freedom: min_u8(before.freedom, 10),
        wealth: min_u8(before.wealth, 10),
        temporary_damage: TownDamage {
            jobs_loss: min_u8(before.temporary_damage.jobs_loss, jobs),
            safety_loss: min_u8(before.temporary_damage.safety_loss, safety),
            capacity_loss: min_u32(before.temporary_damage.capacity_loss, (capacity - 1) as u32),
            ..before.temporary_damage
        },
        neighbors: after.neighbors,
        ..before
    })
    &&& normalized_connections(before.neighbors@, before.id, after.neighbors@)
    &&& after.well_formed()
}

/// Two lists of connections strictly ascending by destination that hold the same
/// connections are the same list.
pub proof fn lemma_sorted_connections_equal(s: Seq<TownConnection>, t: Seq<TownConnection>)
    requires
        connections_sorted(s),
        connections_sorted(t),
        forall|x: TownConnection| s.contains(x) <==> t.contains(x),
    ensures
        s == t,
    decreases s.len(),
{
    if s.len() == 0 {
        if t.len() > 0 {
            assert(t.contains(t[0]));
        }
        assert(t =~= s);
    } else {
        assert(s.contains(s[0]));
        assert(t.contains(s[0]));
        assert(t.contains(t[0]));
        assert(s.contains(t[0]));
        let j = choose|j: int| 0 <= j < t.len() && t[j] == s[0];
        let i = choose|i: int| 0 <= i < s.len() && s[i] == t[0];
        if j > 0 {
            assert(t[0].destination.0 < t[j].destination.0);
            if i > 0 {
                assert(s[0].destination.0 < s[i].destination.0);
            }
        }
        assert(s[0] == t[0]);
        let s1 = s.drop_first();
        let t1 = t.drop_first();
        assert forall|x: TownConnection| s1.contains(x) <==> t1.contains(x) by {
            if s1.contains(x) {
                let a = choose|a: int| 0 <= a < s1.len() && s1[a] == x;
                assert(s[a + 1] == x);
                assert(s[0].destination.0 < s[a + 1].destination.0);
                assert(t.contains(x));
                let b = choose|b: int| 0 <= b < t.len() && t[b] == x;
                assert(b != 0);
                assert(t1[b - 1] == x);
            }
            if t1.contains(x) {
                let a = choose|a: int| 0 <= a < t1.len() && t1[a] == x;
                assert(t[a + 1] == x);
                assert(t[0].destination.0 < t[a + 1].destination.0);
                assert(s.contains(x));
                let b = choose|b: int| 0 <= b < s.len() && s[b] == x;
                assert(b != 0);
                assert(s1[b - 1] == x);
            }
        }
        lemma_sorted_connections_equal(s1, t1);
        assert(s =~= seq![s[0]] + s1);
        assert(t =~= seq![t[0]] + t1);
    }
}

/// The connections of a well-formed town are their own normal form.
pub proof fn lemma_normal_connections_fixed(town: Town, normalized: Seq<TownConnection>)
    requires
        town.well_formed(),
        normalized_connections(town.neighbors@, town.id, normalized),
    ensures
        normalized == town.neighbors@,
{
    let given = town.neighbors@;
    assert forall|x: TownConnection| normalized.contains(x) <==> given.contains(x) by {
        if normalized.contains(x) {
            let k = choose|k: int| 0 <= k < normalized.len() && normalized[k] == x;
            let j = choose|j: int| first_connection_index(given, normalized[k].destination, j)
                && normalized[k].distance == clamped_distance(given[j].distance);
            assert(given[j] == x);
        }
        if given.contains(x) {
            let j = choose|j: int| 0 <= j < given.len() && given[j] == x;
            assert(has_connection(normalized, given[j].destination));
            let k = choose|k: int| 0 <= k < normalized.len() && (#[trigger] normalized[k]).destination == given[j].destination;
            let m = choose|m: int| first_connection_index(given, normalized[k].destination, m)
                && normalized[k].distance == clamped_distance(given[m].distance);
            if m < j {
                assert(given[m].destination.0 < given[j].destination.0);
            } else if m > j {
                assert(given[j].destination.0 < given[m].destination.0);
            }
            assert(normalized[k] == x);
        }
    }
    lemma_sorted_connections_equal(normalized, given);
}

/// Normalizing a town a second time changes nothing.
pub proof fn law_normalize_twice(town: Town, once: Town, twice: Town)
    requires
        town_normalized(town, once),
        town_normalized(once, twice),
    ensures
        twice.neighbors@ == once.neighbors@,
        twice == (Town { neighbors: twice.neighbors, ..once }),
{
    lemma_normal_connections_fixed(once, twice.neighbors@);
}

/// Whether `destination` is a direct neighbor, or a neighbor of a direct neighbor other
/// than the town itself. A neighbor is looked up as the first town with its id.
pub open spec fn within_two_hops(town: Town, towns: Seq<Town>, destination: TownId) -> bool {
    exists|i: int| 0 <= i < town.neighbors@.len() && (#[trigger] town.neighbors@[i].destination == destination
        || reached_through(town, towns, town.neighbors@[i].destination, destination))
}

/// `destination` is a neighbor, other than `town` itself, of the first town with id `via`.
pub open spec fn reached_through(town: Town, towns: Seq<Town>, via: TownId, destination: TownId) -> bool {
    &&& destination != town.id
    &&& exists|t: int, k: int| first_town_index(towns, via, t) && 0 <= k < towns[t].neighbors@.len()
        && (#[trigger] towns[t].neighbors@[k]).destination == destination
}

pub open spec fn first_town_index(towns: Seq<Town>, id: TownId, index: int) -> bool {
    &&& 0 <= index < towns.len()
    &&& towns[index].id == id
    &&& forall|j: int| 0 <= j < index ==> (#[trigger] towns[j]).id != id
}

fn find_town(towns: &[Town], id: TownId) -> (index: Option<usize>)
    ensures
        index matches Some(t) ==> first_town_index(towns@, id, t as int),
        index is None ==> forall|t: int| 0 <= t < towns@.len() ==> (#[trigger] towns@[t]).id != id,
{
    let mut t: usize = 0;
    while t < towns.len()
        invariant
            t <= towns@.len(),
            forall|j: int| 0 <= j < t ==> (#[trigger] towns@[j]).id != id,
        decreases towns.len() - t,
    {
        if towns[t].id == id {
            return Some(t);
        }
        t = t + 1;
    }
    None
}

fn find_connection(neighbors: &Vec<TownConnection>, destination: TownId) -> (index: Option<usize>)
    ensures
        index matches Some(i) ==> first_connection_index(neighbors@, destination, i as int),
        index is None ==> !has_connection(neighbors@, destination),
{
    let mut i: usize = 0;
    while i < neighbors.len()
        invariant
            i <= neighbors@.len(),
            forall|j: int| 0 <= j < i ==> (#[trigger] neighbors@[j]).destination != destination,
        decreases neighbors.len() - i,
    {
        if neighbors[i].destination == destination {
            return Some(i);
        }
        i = i + 1;
    }
    None
}

impl Town {
    /// Restores the invariants after the public fields were edited directly.
    pub fn normalize(&mut self)
        ensures
            final(self).id == old(self).id,
            final(self).name == old(self).name,
            final(self).culture == old(self).culture,
            final(self).economy == old(self).economy,
            final(self).population_capacity == (if old(self).population_capacity == 0 {
                1
            } else {
                old(self).population_capacity
            }),
            final(self).jobs == min_u8(old(self).jobs, 10),
            final(self).safety == min_u8(old(self).safety, 10),
            final(self).education == min_u8(old(self).education, 10),
            final(self).freedom == min_u8(old(self).freedom, 10),
            final(self).wealth == min_u8(old(self).wealth, 10),
            final(self).temporary_damage == (TownDamage {
                jobs_loss: min_u8(old(self).temporary_damage.jobs_loss, final(self).jobs),
                safety_loss: min_u8(old(self).temporary_damage.safety_loss, final(self).safety),
                capacity_loss: min_u32(
                    old(self).temporary_damage.capacity_loss,
                    (final(self).population_capacity - 1) as u32,
                ),
                ..old(self).temporary_damage
            }),
            normalized_connections(old(self).neighbors@, old(self).id, final(self).neighbors@),
            final(self).well_formed(),
            town_normalized(*old(self), *final(self)),
    {
        if self.population_capacity == 0 {
            self.population_capacity = 1;
        }
        self.jobs = clamp_ten(self.jobs);
        self.safety = clamp_ten(self.safety);
        self.education = clamp_ten(self.education);
        self.freedom = clamp_ten(self.freedom);
        self.wealth = clamp_ten(self.wealth);
        if self.temporary_damage.jobs_loss > self.jobs {
            self.temporary_damage.jobs_loss = self.jobs;
        }
        if self.temporary_damage.safety_loss > self.safety {
            self.temporary_damage.safety_loss = self.safety;
        }
        if self.temporary_damage.capacity_loss > self.population_capacity - 1 {
            self.temporary_damage.capacity_loss = self.population_capacity - 1;
        }
        let normalized = normalize_connections(&self.neighbors, self.id);
        self.neighbors = normalized;
    }

    /// Adds a connection; for an existing destination the shorter distance is kept.
    /// A connection to the town itself is ignored.
    pub fn add_neighbor(&mut self, connection: TownConnection)
        ensures
            connection.destination == old(self).id ==> *final(self) == *old(self),
            connection.destination != old(self).id ==> {
                let c = TownConnection {
                    destination: connection.destination,
                    distance: clamped_distance(connection.distance),
                };
                &&& final(self).id == old(self).id
                &&& final(self).name == old(self).name
                &&& final(self).culture == old(self).culture
                &&& final(self).economy == old(self).economy
                &&& final(self).population_capacity == old(self).population_capacity
                &&& final(self).jobs == old(self).jobs
                &&& final(self).safety == old(self).safety
                &&& final(self).education == old(self).education
                &&& final(self).freedom == old(self).freedom
                &&& final(self).wealth == old(self).wealth
                &&& final(self).temporary_damage == old(self).temporary_damage
                &&& (has_connection(old(self).neighbors@, c.destination) ==> exists|i: int|
                    first_connection_index(old(self).neighbors@, c.destination, i)
                        && final(self).neighbors@ == old(self).neighbors@.update(
                        i,
                        TownConnection {
                            destination: c.destination,
                            distance: min_u8(old(self).neighbors@[i].distance, c.distance),
                        },
                    ))
                &&& (!has_connection(old(self).neighbors@, c.destination) ==> {
                    &&& connections_weakly_sorted(final(self).neighbors@)
                    &&& final(self).neighbors@.to_multiset() == old(self).neighbors@.push(c).to_multiset()
                    &&& connections_weakly_sorted(old(self).neighbors@) ==> exists|p: int|
                        0 <= p <= old(self).neighbors@.len() && final(self).neighbors@
                            == old(self).neighbors@.insert(p, c)
                })
            },
            old(self).well_formed() ==> final(self).well_formed(),
    {
        if connection.destination == self.id {
            return;
        }
        let c = TownConnection::new(connection.destination, connection.distance);
        match find_connection(&self.neighbors, c.destination) {
            Some(i) => {
                let existing = self.neighbors[i];
                let distance: u8 = if existing.distance < c.distance {
                    existing.distance
                } else {
                    c.distance
                };
                self.neighbors.set(i, TownConnection { destination: c.destination, distance });
                proof {
                    assert forall|a: int| 0 <= a < self.neighbors@.len() implies (#[trigger] self.neighbors@[a]).destination
                        == old(self).neighbors@[a].destination by {}
                }
                return;
            },
            None => {},
        }
        let ghost before = self.neighbors@;
        if is_weakly_sorted(&self.neighbors) {
            insert_after_equal(&mut self.neighbors, c);
            proof {
                broadcast use vstd::seq_lib::group_to_multiset_ensures;
                if old(self).well_formed() {
                    let p = choose|p: int| 0 <= p <= before.len() && self.neighbors@ == before.insert(p, c);
                    lemma_insert_new_destination(before, p, c, self.id);
                }
            }
        } else {
            let sorted = stable_sort_connections(&self.neighbors, c);
            self.neighbors = sorted;
        }
    }

    /// Direct neighbors and the neighbors of those, other than this town: only towns within
    /// two hops are candidates, never the whole map. Returned ascending, each once.
    pub fn reachable_within_two_hops(&self, towns: &[Town]) -> (destinations: Vec<TownId>)
        ensures
            crate::sorted_ids::town_ids_sorted(destinations@),
            forall|d: TownId| destinations@.contains(d) <==> within_two_hops(*self, towns@, d),
    {
        let mut destinations: Vec<TownId> = Vec::new();
        let mut i: usize = 0;
        while i < self.neighbors.len()
            invariant
                i <= self.neighbors@.len(),
                crate::sorted_ids::town_ids_sorted(destinations@),
                forall|d: TownId| #[trigger] destinations@.contains(d) <==> exists|j: int| 0 <= j < i && (
                    #[trigger] self.neighbors@[j].destination == d || reached_through(
                        *self,
                        towns@,
                        self.neighbors@[j].destination,
                        d,
                    )),
            decreases self.neighbors.len() - i,
        {
            let connection = self.neighbors[i];
            let ghost before_first = destinations@;
            crate::sorted_ids::insert_town_id(&mut destinations, connection.destination);
            let ghost after_first = destinations@;
            let found = find_town(towns, connection.destination);
            match found {
                Some(t) => {
                    let neighbor = &towns[t];
                    let mut k: usize = 0;
                    while k < neighbor.neighbors.len()
                        invariant
                            k <= neighbor.neighbors@.len(),
                            first_town_index(towns@, connection.destination, t as int),
                            *neighbor == towns@[t as int],
                            crate::sorted_ids::town_ids_sorted(destinations@),
                            forall|d: TownId| #[trigger] destinations@.contains(d) <==> (after_first.contains(d) || (
                            d != self.id && exists|m: int| 0 <= m < k && (
                            #[trigger] neighbor.neighbors@[m]).destination == d)),
                        decreases neighbor.neighbors.len() - k,
                    {
                        let second = neighbor.neighbors[k];
                        let ghost before_second = destinations@;
                        if second.destination != self.id {
                            crate::sorted_ids::insert_town_id(&mut destinations, second.destination);
                        }
                        proof {
                            assert forall|d: TownId| #[trigger] destinations@.contains(d) <==> (after_first.contains(d)
                                || (d != self.id && exists|m: int| 0 <= m < k + 1 && (
                            #[trigger] neighbor.neighbors@[m]).destination == d)) by {
                                if d != self.id && d == second.destination {
                                    assert(neighbor.neighbors@[k as int].destination == d);
                                }
                                if d != self.id && exists|m: int| 0 <= m < k + 1 && (
                                #[trigger] neighbor.neighbors@[m]).destination == d {
                                    let m = choose|m: int| 0 <= m < k + 1 && (
                                    #[trigger] neighbor.neighbors@[m]).destination == d;
                                    if m < k {
                                        assert(before_second.contains(d));
                                    }
                                }
                                if before_second.contains(d) {
                                }
                            }
                        }
                        k = k + 1;
                    }
                    proof {
                        assert forall|d: TownId| #[trigger] destinations@.contains(d) <==> exists|j: int| 0 <= j < i + 1 && (
                            #[trigger] self.neighbors@[j].destination == d || reached_through(
                                *self,
                                towns@,
                                self.neighbors@[j].destination,
                                d,
                            )) by {
                            if destinations@.contains(d) && !after_first.contains(d) {
                                let m = choose|m: int| 0 <= m < k && (
                                #[trigger] neighbor.neighbors@[m]).destination == d;
                                assert(towns@[t as int].neighbors@[m].destination == d);
                                assert(reached_through(*self, towns@, self.neighbors@[i as int].destination, d));
                            }
                            if after_first.contains(d) && !before_first.contains(d) {
                                assert(self.neighbors@[i as int].destination == d);
                            }
                            if exists|j: int| 0 <= j < i + 1 && (
                            #[trigger] self.neighbors@[j].destination == d || reached_through(
                                *self,
                                towns@,
                                self.neighbors@[j].destination,
                                d,
                            )) {
                                let j = choose|j: int| 0 <= j < i + 1 && (
                                #[trigger] self.neighbors@[j].destination == d || reached_through(
                                    *self,
                                    towns@,
                                    self.neighbors@[j].destination,
                                    d,
                                ));
                                if j < i {
                                    assert(before_first.contains(d));
                                } else if self.neighbors@[j].destination == d {
                                } else {
                                    let (tt, kk) = choose|tt: int, kk: int| first_town_index(towns@, connection.destination, tt)
                                        && 0 <= kk < towns@[tt].neighbors@.len() && (
                                    #[trigger] towns@[tt].neighbors@[kk]).destination == d;
                                    assert(tt == t);
                                    assert(neighbor.neighbors@[kk].destination == d);
                                }
                            }
                        }
                    }
                },
                None => {
                    proof {
                        assert forall|d: TownId| #[trigger] destinations@.contains(d) <==> exists|j: int| 0 <= j < i + 1 && (
                            #[trigger] self.neighbors@[j].destination == d || reached_through(
                                *self,
                                towns@,
                                self.neighbors@[j].destination,
                                d,
                            )) by {
                            if destinations@.contains(d) && !before_first.contains(d) {
                                assert(self.neighbors@[i as int].destination == d);
                            }
                            if exists|j: int| 0 <= j < i + 1 && (
                            #[trigger] self.neighbors@[j].destination == d || reached_through(
                                *self,
                                towns@,
                                self.neighbors@[j].destination,
                                d,
                            )) {
                                let j = choose|j: int| 0 <= j < i + 1 && (
                                #[trigger] self.neighbors@[j].destination == d || reached_through(
                                    *self,
                                    towns@,
                                    self.neighbors@[j].destination,
                                    d,
                                ));
                                if j < i {
                                    assert(before_first.contains(d));
                                } else if self.neighbors@[j].destination == d {
                                } else {
                                    let (tt, kk) = choose|tt: int, kk: int| first_town_index(towns@, connection.destination, tt)
                                        && 0 <= kk < towns@[tt].neighbors@.len() && (
                                    #[trigger] towns@[tt].neighbors@[kk]).destination == d;
                                    assert(towns@[tt].id == connection.destination);
                                }
                            }
                        }
                    }
                },
            }
            i = i + 1;
        }
        destinations
    }
}

fn is_weakly_sorted(neighbors: &Vec<TownConnection>) -> (sorted: bool)
    ensures
        sorted == connections_weakly_sorted(neighbors@),
{
    let mut i: usize = 1;
    if neighbors.len() == 0 {
        return true;
    }
    while i < neighbors.len()
        invariant
            1 <= i <= neighbors@.len(),
            connections_weakly_sorted(neighbors@.take(i as int)),
        decreases neighbors.len() - i,
    {
        if neighbors[i - 1].destination.0 > neighbors[i].destination.0 {
            proof {
                assert(!connections_weakly_sorted(neighbors@)) by {
                    let a = i - 1;
                    let b = i as int;
                    assert(neighbors@[a].destination.0 > neighbors@[b].destination.0);
                }
            }
            return false;
        }
        proof {
            assert forall|a: int, b: int| 0 <= a < b < i + 1 implies (#[trigger] neighbors@.take(i + 1)[a]).destination.0
                <= (#[trigger] neighbors@.take(i + 1)[b]).destination.0 by {
                if b < i {
                    assert(neighbors@.take(i as int)[a] == neighbors@[a]);
                    assert(neighbors@.take(i as int)[b] == neighbors@[b]);
                } else if a < i - 1 {
                    assert(neighbors@.take(i as int)[a] == neighbors@[a]);
                    assert(neighbors@.take(i as int)[i - 1] == neighbors@[i - 1]);
                }
            }
        }
        i = i + 1;
    }
    proof {
        assert(neighbors@.take(neighbors@.len() as int) =~= neighbors@);
    }
    true
}

/// Stable sort by destination: connections with the same destination keep their order.
/// Inserts `x` after every connection whose destination is not greater than its own,
/// keeping the list ascending and the order of equal destinations.
fn insert_after_equal(sorted: &mut Vec<TownConnection>, x: TownConnection)
    requires
        connections_weakly_sorted(old(sorted)@),
    ensures
        connections_weakly_sorted(final(sorted)@),
        exists|p: int| 0 <= p <= old(sorted)@.len() && final(sorted)@ == old(sorted)@.insert(p, x),
        final(sorted)@.to_multiset() == old(sorted)@.to_multiset().insert(x),
{
    let mut position: usize = 0;
    while position < sorted.len() && sorted[position].destination.0 <= x.destination.0
        invariant
            position <= sorted@.len(),
            forall|j: int| 0 <= j < position ==> (#[trigger] sorted@[j]).destination.0 <= x.destination.0,
        decreases sorted.len() - position,
    {
        position = position + 1;
    }
    let ghost before = sorted@;
    sorted.insert(position, x);
    proof {
        broadcast use vstd::seq_lib::group_to_multiset_ensures;
        assert(sorted@ == before.insert(position as int, x));
        assert(forall|j: int| position <= j < before.len() ==> x.destination.0
            < (#[trigger] before[j]).destination.0) by {
            assert forall|j: int| position <= j < before.len() implies x.destination.0
                < (#[trigger] before[j]).destination.0 by {
                if j > position {
                    assert(before[position as int].destination.0 <= before[j].destination.0);
                }
            }
        }
        assert(connections_weakly_sorted(sorted@)) by {
            assert forall|a: int, b: int| 0 <= a < b < sorted@.len() implies (#[trigger] sorted@[a]).destination.0
                <= (#[trigger] sorted@[b]).destination.0 by {
                if b < position {
                } else if b == position {
                } else if a < position {
                    assert(sorted@[b] == before[b - 1]);
                } else if a == position {
                    assert(sorted@[b] == before[b - 1]);
                } else {
                    assert(sorted@[a] == before[a - 1]);
                    assert(sorted@[b] == before[b - 1]);
                }
            }
        }
    }
}

/// The given connections followed by `extra`, stably sorted by destination.
fn stable_sort_connections(given: &Vec<TownConnection>, extra: TownConnection) -> (sorted: Vec<TownConnection>)
    ensures
        connections_weakly_sorted(sorted@),
        sorted@.to_multiset() == given@.push(extra).to_multiset(),
{
    let mut sorted: Vec<TownConnection> = Vec::new();
    let mut i: usize = 0;
    proof {
        assert(sorted@ =~= given@.take(0));
    }
    while i < given.len()
        invariant
            i <= given@.len(),
            connections_weakly_sorted(sorted@),
            sorted@.to_multiset() == given@.take(i as int).to_multiset(),
        decreases given.len() - i,
    {
        insert_after_equal(&mut sorted, given[i]);
        proof {
            broadcast use vstd::seq_lib::group_to_multiset_ensures;
            assert(given@.take(i + 1) =~= given@.take(i as int).push(given@[i as int]));
        }
        i = i + 1;
    }
    insert_after_equal(&mut sorted, extra);
    proof {
        broadcast use vstd::seq_lib::group_to_multiset_ensures;
        assert(given@.take(given@.len() as int) =~= given@);
    }
    sorted
}

/// Builds the normal form of a town's connections.
fn normalize_connections(given: &Vec<TownConnection>, own: TownId) -> (normalized: Vec<TownConnection>)
    ensures
        normalized_connections(given@, own, normalized@),
        forall|k: int| 0 <= k < normalized@.len() ==> 1 <= (#[trigger] normalized@[k]).distance <= 10,
{
    let mut normalized: Vec<TownConnection> = Vec::new();
    let mut j: usize = 0;
    while j < given.len()
        invariant
            j <= given@.len(),
            connections_sorted(normalized@),
            forall|k: int| 0 <= k < normalized@.len() ==> (#[trigger] normalized@[k]).destination != own
                && 1 <= normalized@[k].distance <= 10 && exists|m: int| 0 <= m < j
                && first_connection_index(given@, normalized@[k].destination, m)
                && normalized@[k].distance == clamped_distance(given@[m].distance),
            forall|m: int| 0 <= m < j && (#[trigger] given@[m]).destination != own
                ==> has_connection(normalized@, given@[m].destination),
        decreases given.len() - j,
    {
        let connection = given[j];
        if connection.destination != own {
            let mut position: usize = 0;
            while position < normalized.len() && normalized[position].destination.0 < connection.destination.0
                invariant
                    position <= normalized@.len(),
                    forall|k: int| 0 <= k < position ==> (#[trigger] normalized@[k]).destination.0
                        < connection.destination.0,
                decreases normalized.len() - position,
            {
                position = position + 1;
            }
            if position < normalized.len() && normalized[position].destination.0 == connection.destination.0 {
                proof {
                    assert(normalized@[position as int].destination == connection.destination);
                    assert forall|m: int| 0 <= m < j + 1 && (#[trigger] given@[m]).destination != own
                        implies has_connection(normalized@, given@[m].destination) by {
                        if m == j {
                            assert(normalized@[position as int].destination == given@[m].destination);
                        }
                    }
                }
            } else {
                proof {
                    assert forall|m: int| 0 <= m < j && #[trigger] given@[m].destination == connection.destination
                        implies false by {
                        assert(has_connection(normalized@, given@[m].destination));
                        let k = choose|k: int| 0 <= k < normalized@.len() && (
                        #[trigger] normalized@[k]).destination == given@[m].destination;
                        if k < position {
                        } else if k > position {
                            assert(normalized@[position as int].destination.0 < normalized@[k].destination.0);
                        }
                    }
                    assert(first_connection_index(given@, connection.destination, j as int));
                }
                let c = TownConnection::new(connection.destination, connection.distance);
                let ghost before = normalized@;
                normalized.insert(position, c);
                proof {
                    assert(forall|k: int| position <= k < before.len() ==> c.destination.0
                        < (#[trigger] before[k]).destination.0) by {
                        assert forall|k: int| position <= k < before.len() implies c.destination.0
                            < (#[trigger] before[k]).destination.0 by {
                            if k > position {
                                assert(before[position as int].destination.0 < before[k].destination.0);
                            }
                        }
                    }
                    assert(connections_sorted(normalized@)) by {
                        assert forall|a: int, b: int| 0 <= a < b < normalized@.len() implies (
                        #[trigger] normalized@[a]).destination.0 < (#[trigger] normalized@[b]).destination.0 by {
                            if b < position {
                            } else if b == position {
                            } else if a < position {
                                assert(normalized@[b] == before[b - 1]);
                            } else if a == position {
                                assert(normalized@[b] == before[b - 1]);
                            } else {
                                assert(normalized@[a] == before[a - 1]);
                                assert(normalized@[b] == before[b - 1]);
                            }
                        }
                    }
                    assert forall|k: int| 0 <= k < normalized@.len() implies (#[trigger] normalized@[k]).destination != own
                        && 1 <= normalized@[k].distance <= 10 && exists|m: int| 0 <= m < j + 1
                        && first_connection_index(given@, normalized@[k].destination, m)
                        && normalized@[k].distance == clamped_distance(given@[m].distance) by {
                        if k < position {
                            assert(normalized@[k] == before[k]);
                        } else if k > position {
                            assert(normalized@[k] == before[k - 1]);
                        } else {
                            assert(first_connection_index(given@, normalized@[k].destination, j as int));
                        }
                    }
                    assert forall|m: int| 0 <= m < j + 1 && (#[trigger] given@[m]).destination != own
                        implies has_connection(normalized@, given@[m].destination) by {
                        if m == j {
                            assert(normalized@[position as int].destination == given@[m].destination);
                        } else {
                            let k = choose|k: int| 0 <= k < before.len() && (
                            #[trigger] before[k]).destination == given@[m].destination;
                            if k < position {
                                assert(normalized@[k] == before[k]);
                            } else {
                                assert(normalized@[k + 1] == before[k]);
                            }
                        }
                    }
                }
            }
        }
        j = j + 1;
    }
    normalized
}

pub open spec fn sat_add_u8(a: u8, b: u8) -> u8 {
    if a + b > 255 {
        255
    } else {
        (a + b) as u8
    }
}

pub open spec fn min_u32(a: u32, b: u32) -> u32 {
    if a < b {
        a
    } else {
        b
    }
}

fn clamp_ten(value: u8) -> (clamped: u8)
    ensures
        clamped == min_u8(value, 10),
{
    if value < 10 {
        value
    } else {
        10
    }
}

/// However often damage is applied, the effective values stay within their bases and
/// the effective capacity stays at least one.
pub proof fn lemma_damage_is_bounded(town: Town)
    ensures
        town.effective_jobs_spec() <= min_u8(town.jobs, 10),
        town.effective_safety_spec() <= min_u8(town.safety, 10),
        1 <= town.effective_capacity_spec(),
{
}

} // verus!
