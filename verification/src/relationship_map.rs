use vstd::prelude::*;

use crate::id::NpcId;
use crate::relationship::Relationship;
use crate::sorted_ids::npc_ids_sorted;

verus! {

/// An NPC's relationships, keyed by the other NPC. Entries are kept in ascending id
/// order, so that every walk over them is reproducible.
#[derive(Debug, PartialEq, Eq)]
pub struct RelationshipMap {
    ids: Vec<NpcId>,
    relations: Vec<Relationship>,
}

/// The position of `id` in `ids` (meaningful when it occurs).
pub open spec fn position_of(ids: Seq<NpcId>, id: NpcId) -> int {
    choose|i: int| 0 <= i < ids.len() && ids[i] == id
}

impl Clone for RelationshipMap {
    fn clone(&self) -> (copy: Self)
        ensures
            copy@ == self@,
            copy.key_order() == self.key_order(),
    {
        proof {
            use_type_invariant(self);
        }
        let ids = self.ids.clone();
        let relations = self.relations.clone();
        proof {
            assert(ids@ =~= self.ids@);
            assert(relations@ =~= self.relations@);
        }
        RelationshipMap { ids, relations }
    }
}

impl View for RelationshipMap {
    type V = Map<NpcId, Relationship>;

    closed spec fn view(&self) -> Map<NpcId, Relationship> {
        Map::new(|id: NpcId| self.ids@.contains(id), |id: NpcId| self.relations@[position_of(self.ids@, id)])
    }
}

impl RelationshipMap {
    #[verifier::type_invariant]
    spec fn ordered(self) -> bool {
        &&& self.ids@.len() == self.relations@.len()
        &&& npc_ids_sorted(self.ids@)
    }

    /// The keys in ascending order.
    pub closed spec fn key_order(&self) -> Seq<NpcId> {
        self.ids@
    }

    proof fn lemma_entry(&self, i: int)
        requires
            self.ordered(),
            0 <= i < self.ids@.len(),
        ensures
            self@.contains_key(self.ids@[i]),
            self@[self.ids@[i]] == self.relations@[i],
    {
        assert(self.ids@.contains(self.ids@[i]));
        let p = position_of(self.ids@, self.ids@[i]);
        if p != i {
            if p < i {
                assert(self.ids@[p].0 < self.ids@[i].0);
            } else {
                assert(self.ids@[i].0 < self.ids@[p].0);
            }
        }
    }

    proof fn lemma_set_entry(&self, i: int, value: Relationship, after: RelationshipMap)
        requires
            self.ordered(),
            0 <= i < self.ids@.len(),
            after.ids@ == self.ids@,
            after.relations@ == self.relations@.update(i, value),
        ensures
            after@ == self@.insert(self.ids@[i], value),
    {
        assert forall|k: NpcId| #[trigger] after@.contains_key(k) implies after@[k] == self@.insert(self.ids@[i], value)[k] by {
            let p = position_of(self.ids@, k);
            assert(self.ids@[p] == k);
            if p != i {
                assert(self.ids@[p] != self.ids@[i]) by {
                    if p < i {
                        assert(self.ids@[p].0 < self.ids@[i].0);
                    } else {
                        assert(self.ids@[i].0 < self.ids@[p].0);
                    }
                }
                self.lemma_entry(p);
            } else {
                self.lemma_entry(i);
            }
        }
        assert(after@ =~= self@.insert(self.ids@[i], value));
    }

    proof fn lemma_insert_entry(&self, i: int, id: NpcId, value: Relationship, after: RelationshipMap)
        requires
            self.ordered(),
            0 <= i <= self.ids@.len(),
            forall|j: int| 0 <= j < i ==> (#[trigger] self.ids@[j]).0 < id.0,
            forall|j: int| i <= j < self.ids@.len() ==> (#[trigger] self.ids@[j]).0 > id.0,
            after.ids@ == self.ids@.insert(i, id),
            after.relations@ == self.relations@.insert(i, value),
        ensures
            after.ordered(),
            after@ == self@.insert(id, value),
    {
        assert(npc_ids_sorted(after.ids@)) by {
            assert forall|a: int, b: int| 0 <= a < b < after.ids@.len() implies (#[trigger] after.ids@[a]).0
                < (#[trigger] after.ids@[b]).0 by {
                if b < i {
                } else if b == i {
                } else if a < i {
                    assert(after.ids@[b] == self.ids@[b - 1]);
                } else if a == i {
                    assert(after.ids@[b] == self.ids@[b - 1]);
                } else {
                    assert(after.ids@[a] == self.ids@[a - 1]);
                    assert(after.ids@[b] == self.ids@[b - 1]);
                }
            }
        }
        assert forall|k: NpcId| #[trigger] after@.contains_key(k) <==> self@.insert(id, value).contains_key(k) by {
            if after.ids@.contains(k) {
                let p = choose|p: int| 0 <= p < after.ids@.len() && after.ids@[p] == k;
                if p < i {
                    assert(self.ids@[p] == k);
                } else if p > i {
                    assert(self.ids@[p - 1] == k);
                }
            }
            if self.ids@.contains(k) {
                let p = choose|p: int| 0 <= p < self.ids@.len() && self.ids@[p] == k;
                if p < i {
                    assert(after.ids@[p] == k);
                } else {
                    assert(after.ids@[p + 1] == k);
                }
            }
            if k == id {
                assert(after.ids@[i] == k);
            }
        }
        assert forall|k: NpcId| #[trigger] after@.contains_key(k) implies after@[k] == self@.insert(id, value)[k] by {
            let p = choose|p: int| 0 <= p < after.ids@.len() && after.ids@[p] == k;
            after.lemma_entry(p);
            if p < i {
                self.lemma_entry(p);
            } else if p > i {
                self.lemma_entry(p - 1);
            }
        }
        assert(after@ =~= self@.insert(id, value));
    }

    proof fn lemma_remove_entry(&self, i: int, after: RelationshipMap)
        requires
            self.ordered(),
            0 <= i < self.ids@.len(),
            after.ids@ == self.ids@.remove(i),
            after.relations@ == self.relations@.remove(i),
        ensures
            after.ordered(),
            after@ == self@.remove(self.ids@[i]),
    {
        let id = self.ids@[i];
        assert(npc_ids_sorted(after.ids@)) by {
            assert forall|a: int, b: int| 0 <= a < b < after.ids@.len() implies (#[trigger] after.ids@[a]).0
                < (#[trigger] after.ids@[b]).0 by {
                if b < i {
                } else if a < i {
                    assert(after.ids@[b] == self.ids@[b + 1]);
                } else {
                    assert(after.ids@[a] == self.ids@[a + 1]);
                    assert(after.ids@[b] == self.ids@[b + 1]);
                }
            }
        }
        assert forall|k: NpcId| #[trigger] after@.contains_key(k) <==> self@.remove(id).contains_key(k) by {
            if after.ids@.contains(k) {
                let p = choose|p: int| 0 <= p < after.ids@.len() && after.ids@[p] == k;
                if p < i {
                    assert(self.ids@[p] == k);
                    assert(self.ids@[p].0 < self.ids@[i].0);
                } else {
                    assert(self.ids@[p + 1] == k);
                    assert(self.ids@[i].0 < self.ids@[p + 1].0);
                }
            }
            if self.ids@.contains(k) && k != id {
                let p = choose|p: int| 0 <= p < self.ids@.len() && self.ids@[p] == k;
                if p < i {
                    assert(after.ids@[p] == k);
                } else {
                    assert(after.ids@[p - 1] == k);
                }
            }
        }
        assert forall|k: NpcId| #[trigger] after@.contains_key(k) implies after@[k] == self@.remove(id)[k] by {
            let p = choose|p: int| 0 <= p < after.ids@.len() && after.ids@[p] == k;
            after.lemma_entry(p);
            if p < i {
                self.lemma_entry(p);
            } else {
                self.lemma_entry(p + 1);
            }
        }
        assert(after@ =~= self@.remove(id));
    }

    proof fn lemma_key_order(&self)
        requires
            self.ordered(),
        ensures
            npc_ids_sorted(self.key_order()),
            forall|id: NpcId| #[trigger] self@.contains_key(id) <==> self.key_order().contains(id),
            self@.len() == self.key_order().len(),
    {
        assert(self@.dom() =~= self.ids@.to_set());
        assert(self.ids@.no_duplicates()) by {
            assert forall|i: int, j: int| 0 <= i < self.ids@.len() && 0 <= j < self.ids@.len() && i != j implies self.ids@[i]
                != self.ids@[j] by {
                if i < j {
                    assert(self.ids@[i].0 < self.ids@[j].0);
                } else {
                    assert(self.ids@[j].0 < self.ids@[i].0);
                }
            }
        }
        self.ids@.unique_seq_to_set();
    }

    /// A relationship map holds finitely many relationships.
    pub proof fn lemma_finite(&self)
        ensures
            self@.dom().finite(),
    {
        broadcast use vstd::seq_lib::seq_to_set_is_finite;
        assert(self@.dom() =~= self.ids@.to_set());
    }

    /// The keys in `key_order` are exactly those of the map.
    pub proof fn lemma_key_order_is_domain(&self)
        ensures
            forall|id: NpcId| #[trigger] self@.contains_key(id) <==> self.key_order().contains(id),
    {
    }

    pub fn new() -> (map: Self)
        ensures
            map@ == Map::<NpcId, Relationship>::empty(),
    {
        let map = RelationshipMap { ids: Vec::new(), relations: Vec::new() };
        assert(map@ =~= Map::<NpcId, Relationship>::empty());
        map
    }

    /// Where `id` is, or where it would be inserted.
    fn search(&self, id: NpcId) -> (result: (usize, bool))
        ensures
            result.0 <= self.ids@.len(),
            forall|j: int| 0 <= j < result.0 ==> (#[trigger] self.ids@[j]).0 < id.0,
            forall|j: int| result.0 < j < self.ids@.len() ==> (#[trigger] self.ids@[j]).0 > id.0,
            result.1 <==> (result.0 < self.ids@.len() && self.ids@[result.0 as int] == id),
            !result.1 ==> forall|j: int| result.0 <= j < self.ids@.len() ==> (#[trigger] self.ids@[j]).0 > id.0,
    {
        proof {
            use_type_invariant(self);
        }
        let mut position: usize = 0;
        while position < self.ids.len() && self.ids[position].0 < id.0
            invariant
                position <= self.ids@.len(),
                forall|j: int| 0 <= j < position ==> (#[trigger] self.ids@[j]).0 < id.0,
            decreases self.ids.len() - position,
        {
            position = position + 1;
        }
        let found = position < self.ids.len() && self.ids[position].0 == id.0;
        proof {
            if position < self.ids@.len() {
                assert forall|j: int| position < j < self.ids@.len() implies (#[trigger] self.ids@[j]).0 > id.0 by {
                    assert(self.ids@[position as int].0 < self.ids@[j].0);
                }
            }
        }
        (position, found)
    }

    pub fn len(&self) -> (count: usize)
        ensures
            count == self@.len(),
    {
        proof {
            use_type_invariant(self);
            self.lemma_key_order();
        }
        self.ids.len()
    }

    pub fn is_empty(&self) -> (empty: bool)
        ensures
            empty == (self@.len() == 0),
    {
        self.len() == 0
    }

    pub fn contains_key(&self, id: NpcId) -> (found: bool)
        ensures
            found == self@.contains_key(id),
    {
        let (position, found) = self.search(id);
        proof {
            use_type_invariant(self);
            if self.ids@.contains(id) {
                let k = choose|k: int| 0 <= k < self.ids@.len() && self.ids@[k] == id;
                assert(self.ids@[k].0 == id.0);
            }
        }
        found
    }

    pub fn get(&self, id: NpcId) -> (relationship: Option<&Relationship>)
        ensures
            self@.contains_key(id) ==> relationship == Some(&self@[id]),
            !self@.contains_key(id) ==> relationship is None,
    {
        let (position, found) = self.search(id);
        proof {
            use_type_invariant(self);
            if self.ids@.contains(id) {
                let k = choose|k: int| 0 <= k < self.ids@.len() && self.ids@[k] == id;
                assert(self.ids@[k].0 == id.0);
            }
        }
        if found {
            proof {
                self.lemma_entry(position as int);
            }
            Some(&self.relations[position])
        } else {
            None
        }
    }

    pub fn get_mut(&mut self, id: NpcId) -> (relationship: Option<&mut Relationship>)
        ensures
            !old(self)@.contains_key(id) ==> relationship is None && final(self)@ == old(self)@
                && final(self).key_order() == old(self).key_order(),
            old(self)@.contains_key(id) ==> relationship is Some && *relationship->0 == old(self)@[id]
                && final(self)@ == old(self)@.insert(id, *final(relationship->0))
                && final(self).key_order() == old(self).key_order(),
    {
        let (position, found) = self.search(id);
        proof {
            use_type_invariant(&*self);
            if self.ids@.contains(id) {
                let k = choose|k: int| 0 <= k < self.ids@.len() && self.ids@[k] == id;
                assert(self.ids@[k].0 == id.0);
            }
        }
        if found {
            proof {
                self.lemma_entry(position as int);
            }
            let ghost before = *self;
            proof {
                assert forall|value: Relationship, after: RelationshipMap|
                    after.ids@ == before.ids@ && after.relations@ == before.relations@.update(position as int, value)
                    implies #[trigger] after@ == #[trigger] before@.insert(id, value) by {
                    before.lemma_set_entry(position as int, value, after);
                }
            }
            let relationship = &mut self.relations[position];
            Some(relationship)
        } else {
            None
        }
    }

    /// Sets the relationship with `id`; returns the one it replaced.
    pub fn insert(&mut self, id: NpcId, relationship: Relationship) -> (previous: Option<Relationship>)
        ensures
            final(self)@ == old(self)@.insert(id, relationship),
            old(self)@.contains_key(id) ==> previous == Some(old(self)@[id]),
            !old(self)@.contains_key(id) ==> previous is None,
    {
        let (position, found) = self.search(id);
        proof {
            use_type_invariant(&*self);
            if self.ids@.contains(id) {
                let k = choose|k: int| 0 <= k < self.ids@.len() && self.ids@[k] == id;
                assert(self.ids@[k].0 == id.0);
            }
        }
        let ghost before = *self;
        if found {
            proof {
                self.lemma_entry(position as int);
            }
            let previous = self.relations[position];
            let ids = self.ids.clone();
            let mut relations = self.relations.clone();
            proof {
                assert(ids@ =~= before.ids@);
                assert(relations@ =~= before.relations@);
            }
            relations.set(position, relationship);
            proof {
                before.lemma_set_entry(position as int, relationship, RelationshipMap { ids, relations });
            }
            *self = RelationshipMap { ids, relations };
            Some(previous)
        } else {
            let mut ids = self.ids.clone();
            let mut relations = self.relations.clone();
            proof {
                assert(ids@ =~= before.ids@);
                assert(relations@ =~= before.relations@);
            }
            ids.insert(position, id);
            relations.insert(position, relationship);
            proof {
                let after = RelationshipMap { ids, relations };
                before.lemma_insert_entry(position as int, id, relationship, after);
            }
            *self = RelationshipMap { ids, relations };
            None
        }
    }

    /// Removes the relationship with `id`, returning it.
    pub fn remove(&mut self, id: NpcId) -> (removed: Option<Relationship>)
        ensures
            final(self)@ == old(self)@.remove(id),
            old(self)@.contains_key(id) ==> removed == Some(old(self)@[id]),
            !old(self)@.contains_key(id) ==> removed is None,
    {
        let (position, found) = self.search(id);
        proof {
            use_type_invariant(&*self);
            if self.ids@.contains(id) {
                let k = choose|k: int| 0 <= k < self.ids@.len() && self.ids@[k] == id;
                assert(self.ids@[k].0 == id.0);
            }
        }
        let ghost before = *self;
        if found {
            proof {
                self.lemma_entry(position as int);
            }
            let mut ids = self.ids.clone();
            let mut relations = self.relations.clone();
            proof {
                assert(ids@ =~= before.ids@);
                assert(relations@ =~= before.relations@);
            }
            ids.remove(position);
            let removed = relations.remove(position);
            proof {
                let after = RelationshipMap { ids, relations };
                before.lemma_remove_entry(position as int, after);
            }
            *self = RelationshipMap { ids, relations };
            Some(removed)
        } else {
            proof {
                assert(self@ =~= self@.remove(id));
            }
            None
        }
    }

    /// The ids of the related NPCs, ascending.
    pub fn keys(&self) -> (keys: Vec<NpcId>)
        ensures
            keys@ == self.key_order(),
            npc_ids_sorted(keys@),
            forall|id: NpcId| #[trigger] keys@.contains(id) <==> self@.contains_key(id),
    {
        proof {
            use_type_invariant(self);
            self.lemma_key_order();
        }
        let keys = self.ids.clone();
        proof {
            assert(keys@ =~= self.ids@);
        }
        keys
    }

    /// The entries in ascending id order.
    pub fn entries(&self) -> (entries: Vec<(NpcId, Relationship)>)
        ensures
            entries@.len() == self.key_order().len(),
            forall|i: int| 0 <= i < entries@.len() ==> (#[trigger] entries@[i]).0 == self.key_order()[i]
                && self@.contains_key(entries@[i].0) && entries@[i].1 == self@[entries@[i].0],
    {
        proof {
            use_type_invariant(self);
        }
        let mut entries: Vec<(NpcId, Relationship)> = Vec::new();
        let mut i: usize = 0;
        while i < self.ids.len()
            invariant
                self.ordered(),
                i <= self.ids@.len(),
                entries@.len() == i,
                forall|j: int| 0 <= j < i ==> (#[trigger] entries@[j]).0 == self.ids@[j]
                    && self@.contains_key(entries@[j].0) && entries@[j].1 == self@[entries@[j].0],
            decreases self.ids.len() - i,
        {
            proof {
                self.lemma_entry(i as int);
            }
            entries.push((self.ids[i], self.relations[i]));
            i = i + 1;
        }
        entries
    }

    /// Every relationship clamped into its ranges.
    pub fn normalize_values(&mut self)
        ensures
            final(self)@ == old(self)@.map_values(|relationship: Relationship| relationship.normalized()),
            final(self).key_order() == old(self).key_order(),
    {
        proof {
            use_type_invariant(&*self);
        }
        let mut relations: Vec<Relationship> = Vec::new();
        let mut i: usize = 0;
        while i < self.relations.len()
            invariant
                self.ordered(),
                i <= self.relations@.len(),
                relations@.len() == i,
                forall|j: int| 0 <= j < i ==> #[trigger] relations@[j] == self.relations@[j].normalized(),
            decreases self.relations.len() - i,
        {
            let mut relationship = self.relations[i];
            relationship.normalize();
            relations.push(relationship);
            i = i + 1;
        }
        let ids = self.ids.clone();
        proof {
            assert(ids@ =~= self.ids@);
            let after = RelationshipMap { ids, relations };
            assert(after@ =~= self@.map_values(|relationship: Relationship| relationship.normalized()));
        }
        *self = RelationshipMap { ids, relations };
    }
}

} // verus!
