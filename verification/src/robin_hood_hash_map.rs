//! A fixed-capacity hash map with Robin Hood probing and backward-shift deletion.

use crate::hashing::hash_with_fxhash;
use crate::key::Key;
use crate::probe::{probe_distance, reduce, slot_after, step};
use crate::robin_hood_lemmas::{
    lemma_home_in_range, lemma_model_absent, lemma_model_at, lemma_model_size,
    lemma_occupied_bound, lemma_occupied_none, lemma_search_ends, lemma_shift_end,
    lemma_shift_start, lemma_shift_step, lemma_tight_put, lemma_walk_absent, lemma_walk_carry_on,
    lemma_walk_evict, lemma_walk_miss, lemma_walk_pass, lemma_walk_place, lemma_walk_update,
};
pub use crate::robin_hood_model::Bucket;
use crate::robin_hood_model::{
    accepts, carrying, closed_up, holds, home, lookup, model, occupied, placed, psl_total, shifted,
    shifting, slot_of, tight, well_formed,
};
use vstd::prelude::*;

verus! {

/// Why a map could not be made or an entry could not be taken.
#[derive(Debug, Clone, Copy, PartialEq, Eq, Structural)]
pub enum MapError {
    /// A map needs at least one slot.
    InvalidCapacity,
    /// Every slot is occupied and the key is not among them.
    TableFull,
}

/// A map from keys to values in a flat array of `capacity` slots.
#[derive(Debug, Clone, Hash)]
pub struct RobinHashMap<K, V> {
    array: Vec<Option<Bucket<K, V>>>,
    max_psl: usize,
    capacity: usize,
    len: usize,
}

impl<K: Key, V> View for RobinHashMap<K, V> {
    type V = Map<K::V, V>;

    open spec fn view(&self) -> Map<K::V, V> {
        model(self.slots())
    }
}

impl<K: Key, V> RobinHashMap<K, V> {
    /// The slots of the table, in order.
    pub closed spec fn slots(&self) -> Seq<Option<Bucket<K, V>>> {
        self.array@
    }

    /// The number of slots, fixed when the map is made.
    pub closed spec fn spec_capacity(&self) -> nat {
        self.capacity as nat
    }

    /// The bound that lookups trust: no entry has a longer probe sequence.
    pub closed spec fn spec_max_psl(&self) -> nat {
        self.max_psl as nat
    }

    /// The number of entries that the map counts.
    pub closed spec fn spec_len(&self) -> nat {
        self.len as nat
    }

    /// The invariant of the map, which `new` establishes and every operation keeps.
    pub open spec fn wf(&self) -> bool {
        &&& self.slots().len() == self.spec_capacity()
        &&& self.spec_len() == occupied(self.slots())
        &&& self.spec_max_psl() <= self.spec_capacity()
        &&& well_formed(self.slots(), self.spec_max_psl() as int)
    }

    /// Makes an empty map with `capacity` slots.
    pub fn new(capacity: usize) -> (map: Self)
        requires
            capacity > 0,
        ensures
            map.wf(),
            map@ == Map::<K::V, V>::empty(),
            map.spec_capacity() == capacity,
            map.spec_max_psl() == 0,
            map.spec_len() == 0,
            forall|i: int| 0 <= i < capacity ==> (#[trigger] map.slots()[i]) is None,
    {
        let mut array: Vec<Option<Bucket<K, V>>> = Vec::with_capacity(capacity);
        let max_psl: usize = 0;
        for i in 0..capacity
            invariant
                array@.len() == i,
                forall|j: int| 0 <= j < i ==> (#[trigger] array@[j]) is None,
        {
            array.push(None);
        }
        proof {
            lemma_occupied_none(array@);
            assert forall|kv: K::V| !(#[trigger] model(array@).contains_key(kv)) by {
                lemma_model_absent(array@, kv);
            }
            assert(model(array@) =~= Map::<K::V, V>::empty());
        }
        RobinHashMap { array, max_psl, capacity, len: 0 }
    }

    /// Makes an empty map with `capacity` slots, or reports that a map cannot
    /// have none.
    pub fn try_new(capacity: usize) -> (made: Result<Self, MapError>)
        ensures
            match made {
                Ok(map) => {
                    &&& capacity > 0
                    &&& map.wf()
                    &&& map@ == Map::<K::V, V>::empty()
                    &&& map.spec_capacity() == capacity
                    &&& map.spec_max_psl() == 0
                    &&& map.spec_len() == 0
                    &&& forall|i: int| 0 <= i < capacity ==> (#[trigger] map.slots()[i]) is None
                },
                Err(e) => capacity == 0 && e == MapError::InvalidCapacity,
            },
    {
        if capacity == 0 {
            Err(MapError::InvalidCapacity)
        } else {
            Ok(Self::new(capacity))
        }
    }

    /// The number of slots.
    pub fn capacity(&self) -> (n: usize)
        ensures
            n == self.spec_capacity(),
    {
        self.capacity
    }

    /// The longest probe sequence that a lookup will follow.
    pub fn max_psl(&self) -> (n: usize)
        ensures
            n == self.spec_max_psl(),
    {
        self.max_psl
    }

    /// The number of entries.
    pub fn len(&self) -> (n: usize)
        requires
            self.wf(),
        ensures
            n == self@.dom().len(),
            n == self.spec_len(),
            n <= self.spec_capacity(),
    {
        proof {
            lemma_model_size(self.array@);
            lemma_occupied_bound(self.array@);
        }
        self.len
    }

    /// The slot at which the search for `key` starts.
    fn home_index(&self, key: &K) -> (index: usize)
        requires
            self.capacity > 0,
        ensures
            index == home::<K>(key@, self.capacity as int),
            index < self.capacity,
    {
        let mut bytes: Vec<u8> = Vec::new();
        key.encode(&mut bytes);
        assert(bytes@ =~= K::encoding(key@));
        reduce(hash_with_fxhash(bytes.as_slice()), self.capacity)
    }

    /// Walks the probe sequence of `key` and gives the slot that holds it.
    fn locate(&self, key: &K) -> (found: Option<usize>)
        requires
            self.wf(),
        ensures
            match found {
                Some(index) => holds(self.slots(), index as int, key@),
                None => forall|i: int| !holds(self.slots(), i, key@),
            },
    {
        let mut index = self.home_index(key);
        let mut steps: usize = 0;
        proof {
            lemma_home_in_range::<K>(key@, self.capacity as int);
        }
        while steps < self.max_psl
            invariant
                self.wf(),
                index < self.capacity,
                steps <= self.max_psl,
                0 <= home::<K>(key@, self.capacity as int) < self.capacity,
                steps < self.capacity ==> index == slot_after(
                    home::<K>(key@, self.capacity as int),
                    steps as int,
                    self.capacity as int,
                ),
                forall|i: int| holds(self.array@, i, key@) ==> self.array@[i]->0.probe_length > steps,
            decreases self.max_psl - steps,
        {
            match &self.array[index] {
                None => {
                    proof {
                        lemma_search_ends(self.array@, key@, steps as int);
                    }
                    return None;
                },
                Some(bucket) => {
                    if bucket.key.same(key) {
                        return Some(index);
                    }
                    if bucket.probe_length <= steps {
                        proof {
                            lemma_search_ends(self.array@, key@, steps as int);
                        }
                        return None;
                    }
                },
            }
            proof {
                assert forall|i: int| holds(self.array@, i, key@) implies self.array@[i]->0.probe_length
                    > steps + 1 by {
                    if self.array@[i]->0.probe_length == steps + 1 {
                        assert(i == index);
                    }
                }
            }
            index = step(index, self.capacity);
            steps += 1;
        }
        None
    }

    /// Whether the map has an entry for `key`.
    pub fn contains(&self, key: &K) -> (found: bool)
        requires
            self.wf(),
        ensures
            found == self@.contains_key(key@),
    {
        let at = self.locate(key);
        proof {
            match at {
                Some(index) => {
                    lemma_model_at(self.array@, index as int);
                },
                None => {},
            }
        }
        at.is_some()
    }

    /// The value stored for `key`, if the map has one.
    pub fn get(&self, key: &K) -> (found: Option<&V>)
        requires
            self.wf(),
        ensures
            found == match lookup(self@, key@) {
                Some(value) => Some(&value),
                None => None,
            },
    {
        match self.locate(key) {
            Some(index) => {
                proof {
                    lemma_model_at(self.array@, index as int);
                }
                match &self.array[index] {
                    Some(bucket) => Some(&bucket.value),
                    None => None,
                }
            },
            None => None,
        }
    }

    /// Stores `value` under `key`.
    ///
    /// A key that the map already has keeps its slot and gets the new value;
    /// the bucket that comes back carries `key` and the value it had. A new key
    /// takes a slot, displacing entries that are closer to their home slots
    /// than it is to its own. When every slot is taken by other keys, nothing
    /// changes and `TableFull` comes back.
    pub fn insert(&mut self, key: K, value: V) -> (outcome: Result<Option<Bucket<K, V>>, MapError>)
        requires
            old(self).wf(),
        ensures
            final(self).wf(),
            final(self).spec_capacity() == old(self).spec_capacity(),
            final(self).spec_max_psl() >= old(self).spec_max_psl(),
            tight(final(self).slots(), final(self).spec_max_psl() as int, old(self).spec_max_psl() as int),
            outcome is Ok <==> accepts(old(self)@, old(self).spec_capacity(), key@),
            match outcome {
                Ok(previous) => {
                    &&& final(self)@ == old(self)@.insert(key@, value)
                    &&& final(self).slots() == placed(
                        old(self).slots(),
                        Bucket { key, value, probe_length: 1 },
                        home::<K>(key@, old(self).spec_capacity() as int),
                        old(self).spec_capacity(),
                    )
                    &&& match previous {
                        Some(bucket) => {
                            let at = slot_of(old(self).slots(), key@);
                            let held = old(self).slots()[at]->0;
                            &&& old(self)@.contains_key(key@)
                            &&& bucket.key == key
                            &&& bucket.value == old(self)@[key@]
                            &&& bucket.probe_length == held.probe_length
                            &&& final(self).slots() == old(self).slots().update(
                                at,
                                Some(Bucket { key: held.key, value, probe_length: held.probe_length }),
                            )
                            &&& final(self).spec_max_psl() == old(self).spec_max_psl()
                        },
                        None => !old(self)@.contains_key(key@),
                    }
                },
                Err(e) => e == MapError::TableFull && *final(self) == *old(self),
            },
    {
        proof {
            lemma_model_size(self.array@);
            lemma_occupied_bound(self.array@);
        }
        if self.len == self.capacity && !self.contains(&key) {
            return Err(MapError::TableFull);
        }
        let mut index = self.home_index(&key);
        let mut incoming = Bucket { key, value, probe_length: 1 };
        let ghost present = old(self)@.contains_key(key@);
        let ghost goal: int = if present {
            slot_of(old(self).array@, key@)
        } else {
            choose|i: int| 0 <= i < old(self).array@.len() && (#[trigger] old(self).array@[i]) is None
        };
        let ghost mut displaced = false;
        let ghost mut budget: nat = self.capacity as nat;
        let ghost first = incoming;
        proof {
            lemma_home_in_range::<K>(key@, self.capacity as int);
        }
        loop
            invariant
                self.capacity == old(self).capacity,
                budget > probe_distance(index as int, goal, self.capacity as int),
                first == (Bucket { key, value, probe_length: 1 }),
                placed(
                    old(self).array@,
                    first,
                    home::<K>(key@, self.capacity as int),
                    self.capacity as nat,
                ) == placed(self.array@, incoming, index as int, budget),
                self.len == old(self).len,
                self.max_psl >= old(self).max_psl,
                self.max_psl <= self.capacity,
                self.array@.len() == self.capacity,
                self.len == occupied(self.array@),
                well_formed(self.array@, self.max_psl as int),
                carrying(self.array@, incoming, index as int, goal),
                !displaced ==> self.max_psl == old(self).max_psl,
                tight(self.array@, self.max_psl as int, old(self).max_psl as int),
                present == old(self)@.contains_key(key@),
                accepts(old(self)@, old(self).spec_capacity(), key@),
                !present ==> self.array@[goal] is None,
                !displaced ==> {
                    &&& self.array@ == old(self).array@
                    &&& incoming.key == key
                    &&& incoming.value == value
                    &&& present ==> holds(self.array@, goal, key@)
                    &&& forall|i: int|
                        holds(self.array@, i, key@) ==> self.array@[i]->0.probe_length
                            >= incoming.probe_length
                },
                displaced ==> {
                    &&& !present
                    &&& !model(self.array@).contains_key(incoming.key@)
                    &&& model(self.array@).insert(incoming.key@, incoming.value) == old(self)@.insert(
                        key@,
                        value,
                    )
                },
            decreases probe_distance(index as int, goal, self.capacity as int),
        {
            let ghost before = self.array@;
            let ghost bound = self.max_psl as int;
            let ghost carried = incoming;
            match &mut self.array[index] {
                None => {
                    proof {
                        if !displaced {
                            lemma_walk_absent(before, key@, index as int, carried.probe_length as int);
                        }
                        lemma_walk_place(before, bound, carried, index as int, goal);
                        assert(placed(before, carried, index as int, budget) == before.update(
                            index as int,
                            Some(carried),
                        ));
                        lemma_tight_put(before, bound, old(self).max_psl as int, carried, index as int);
                    }
                    if incoming.probe_length > self.max_psl {
                        self.max_psl = incoming.probe_length;
                    }
                    self.array[index] = Some(incoming);
                    self.len += 1;
                    assert(self.array@ == before.update(index as int, Some(carried)));
                    return Ok(None);
                },
                Some(bucket) => {
                    if bucket.key.same(&incoming.key) {
                        std::mem::swap(&mut bucket.value, &mut incoming.value);
                        proof {
                            let kept = Bucket {
                                key: before[index as int]->0.key,
                                value: carried.value,
                                probe_length: before[index as int]->0.probe_length,
                            };
                            assert(self.array@ == before.update(index as int, Some(kept)));
                            lemma_model_at(before, index as int);
                            assert(holds(before, index as int, key@));
                            lemma_walk_update(before, bound, kept, index as int);
                            assert(placed(before, carried, index as int, budget) == before.update(
                                index as int,
                                Some(kept),
                            ));
                        }
                        return Ok(Some(incoming));
                    } else if bucket.probe_length < incoming.probe_length {
                        proof {
                            if !displaced {
                                lemma_walk_absent(before, key@, index as int, carried.probe_length as int);
                            }
                            lemma_walk_evict(before, bound, carried, index as int, goal);
                            lemma_tight_put(before, bound, old(self).max_psl as int, carried, index as int);
                            lemma_walk_carry_on(before, carried, index as int, goal);
                            displaced = true;
                        }
                        if incoming.probe_length > self.max_psl {
                            self.max_psl = incoming.probe_length;
                        }
                        std::mem::swap(bucket, &mut incoming);
                        assert(self.array@ == before.update(index as int, Some(carried)));
                    } else {
                        proof {
                            if !displaced {
                                lemma_walk_miss(before, key@, index as int, carried.probe_length as int);
                            }
                            lemma_walk_pass(before, carried, index as int, goal);
                            assert(self.array@ =~= before);
                        }
                    }
                },
            }
            index = step(index, self.capacity);
            incoming.probe_length += 1;
            proof {
                budget = (budget - 1) as nat;
            }
        }
    }

    /// Removes the entry for `key` and gives its value.
    ///
    /// The entries that follow the freed slot move back by one slot each, up
    /// to the first empty slot or the first entry that sits in its home slot,
    /// so that no gap is left on any probe sequence. The bound on probe lengths
    /// stays as it is.
    pub fn delete(&mut self, key: &K) -> (removed: Option<V>)
        requires
            old(self).wf(),
        ensures
            final(self).wf(),
            final(self).spec_capacity() == old(self).spec_capacity(),
            final(self).spec_max_psl() == old(self).spec_max_psl(),
            final(self)@ == old(self)@.remove(key@),
            removed == lookup(old(self)@, key@),
            final(self).slots() == if old(self)@.contains_key(key@) {
                let at = slot_of(old(self).slots(), key@);
                closed_up(old(self).slots().update(at, None), at)
            } else {
                old(self).slots()
            },
    {
        let index = match self.locate(key) {
            Some(index) => index,
            None => {
                assert(self@ =~= self@.remove(key@));
                return None;
            },
        };
        assert(index == slot_of(self.array@, key@));
        proof {
            lemma_model_at(self.array@, index as int);
            lemma_shift_start(self.array@, self.max_psl as int, index as int);
            lemma_occupied_bound(self.array@);
        }
        let removed = self.array[index].take().unwrap();
        let removed_value = removed.value;
        self.len -= 1;

        let mut empty_index = index;
        let ghost mut gone = removed.probe_length as int;
        loop
            invariant
                self.capacity == old(self).capacity,
                self.max_psl == old(self).max_psl,
                self.max_psl <= self.capacity,
                self.array@.len() == self.capacity,
                self.len == occupied(self.array@),
                empty_index < self.capacity,
                shifting(self.array@, self.max_psl as int, empty_index as int, gone),
                model(self.array@) == old(self)@.remove(key@),
                closed_up(old(self).array@.update(index as int, None), index as int) == closed_up(
                    self.array@,
                    empty_index as int,
                ),
            ensures
                self.capacity == old(self).capacity,
                self.max_psl == old(self).max_psl,
                self.max_psl <= self.capacity,
                self.array@.len() == self.capacity,
                self.len == occupied(self.array@),
                well_formed(self.array@, self.max_psl as int),
                model(self.array@) == old(self)@.remove(key@),
                closed_up(old(self).array@.update(index as int, None), index as int) == self.array@,
            decreases psl_total(self.array@),
        {
            let next_index = step(empty_index, self.capacity);
            let ghost before = self.array@;
            match &self.array[next_index] {
                None => {
                    proof {
                        lemma_shift_end(before, self.max_psl as int, empty_index as int, gone);
                    }
                    break ;
                },
                Some(bucket) if bucket.probe_length == 1 => {
                    proof {
                        lemma_shift_end(before, self.max_psl as int, empty_index as int, gone);
                    }
                    break ;
                },
                Some(_) => {
                    proof {
                        lemma_shift_step(before, self.max_psl as int, empty_index as int, gone);
                        gone = before[next_index as int]->0.probe_length as int;
                    }
                    self.array[empty_index] = self.array[next_index].take();
                    if let Some(ref mut bucket) = self.array[empty_index] {
                        bucket.probe_length -= 1;
                    }
                    assert(self.array@ =~= before.update(next_index as int, None).update(
                        empty_index as int,
                        Some(shifted(before[next_index as int]->0)),
                    ));
                    empty_index = next_index;
                },
            }
        }

        Some(removed_value)
    }
}

} // verus!
