//! A fixed-capacity hash map with linear probing and deletion markers.

use crate::hashing::{default_digest, default_hash_bytes};
use crate::key::Key;
use crate::probe::{slot_after, step};
use vstd::arithmetic::div_mod::lemma_mod_bound;
use vstd::prelude::*;

verus! {

/// What a slot of the table holds: nothing, the mark of a deletion, or an entry.
#[derive(Debug, Hash)]
pub enum Slot<K, V> {
    Empty,
    Deleted,
    Occupied((K, V)),
}

impl<K: Clone, V: Clone> Clone for Slot<K, V> {
    /// A slot of the same kind, with clones of the key and the value.
    fn clone(&self) -> (copy: Self)
        ensures
            self is Empty <==> copy is Empty,
            self is Deleted <==> copy is Deleted,
            self is Occupied <==> copy is Occupied,
    {
        match self {
            Slot::Empty => Slot::Empty,
            Slot::Deleted => Slot::Deleted,
            Slot::Occupied((k, v)) => Slot::Occupied((k.clone(), v.clone())),
        }
    }
}

/// A map from keys to values in a flat array of `capacity` slots.
#[derive(Debug)]
pub struct OpenHashMap<K, V> {
    array: Vec<Slot<K, V>>,
    capacity: usize,
}

/// The slot holds an entry for the key with view `kv`.
pub open spec fn has_key<K: Key, V>(slot: Slot<K, V>, kv: K::V) -> bool {
    slot matches Slot::Occupied(entry) && entry.0@ == kv
}

/// An insertion of `kv` stops at this slot: it is free or holds the key.
pub open spec fn takes<K: Key, V>(slot: Slot<K, V>, kv: K::V) -> bool {
    slot is Empty || slot is Deleted || has_key(slot, kv)
}

/// A search for `kv` stops at this slot: it was never used or holds the key.
pub open spec fn settles<K: Key, V>(slot: Slot<K, V>, kv: K::V) -> bool {
    slot is Empty || has_key(slot, kv)
}

/// The number of steps, from `from` on, after which an insertion of `kv` that
/// starts at slot `start` stops; `None` if it goes round the table.
pub open spec fn landing<K: Key, V>(slots: Seq<Slot<K, V>>, kv: K::V, start: int, from: int) -> Option<int>
    decreases slots.len() - from,
{
    if from >= slots.len() {
        None
    } else if takes(slots[slot_after(start, from, slots.len() as int)], kv) {
        Some(from)
    } else {
        landing(slots, kv, start, from + 1)
    }
}

/// The number of steps, from `from` on, after which a search for `kv` that
/// starts at slot `start` stops; `None` if it goes round the table.
pub open spec fn resting<K: Key, V>(slots: Seq<Slot<K, V>>, kv: K::V, start: int, from: int) -> Option<int>
    decreases slots.len() - from,
{
    if from >= slots.len() {
        None
    } else if settles(slots[slot_after(start, from, slots.len() as int)], kv) {
        Some(from)
    } else {
        resting(slots, kv, start, from + 1)
    }
}

/// The slot at which the probe sequence of a key with view `kv` starts.
pub open spec fn start_slot<K: Key>(kv: K::V, cap: int) -> int {
    (default_digest(K::encoding(kv)) as int) % cap
}

impl<K: Key, V> OpenHashMap<K, V> {
    /// The slots of the table, in order.
    pub closed spec fn slots(&self) -> Seq<Slot<K, V>> {
        self.array@
    }

    /// The number of slots, fixed when the map is made.
    pub closed spec fn spec_capacity(&self) -> nat {
        self.capacity as nat
    }

    /// The invariant of the map: it has as many slots as its capacity says.
    pub open spec fn wf(&self) -> bool {
        self.slots().len() == self.spec_capacity()
    }

    /// Makes a map with `capacity` slots, all of them empty.
    pub fn new(capacity: usize) -> (map: Self)
        ensures
            map.wf(),
            map.spec_capacity() == capacity,
            forall|i: int| 0 <= i < capacity ==> (#[trigger] map.slots()[i]) is Empty,
    {
        let mut array: Vec<Slot<K, V>> = Vec::with_capacity(capacity);
        for i in 0..capacity
            invariant
                array@.len() == i,
                forall|j: int| 0 <= j < i ==> (#[trigger] array@[j]) is Empty,
        {
            array.push(Slot::Empty);
        }
        OpenHashMap { array, capacity }
    }

    /// The number of slots.
    pub fn capacity(&self) -> (n: usize)
        ensures
            n == self.spec_capacity(),
    {
        self.capacity
    }

    /// The number of slots that the table has allocated, which is its capacity.
    pub fn slot_count(&self) -> (n: usize)
        ensures
            n == self.slots().len(),
    {
        self.array.len()
    }

    /// The digest of a key, reduced modulo `modulus`.
    pub fn hash(k: &K, modulus: u64) -> (h: u64)
        requires
            modulus > 0,
        ensures
            h == default_digest(K::encoding(k@)) % modulus,
    {
        let mut bytes: Vec<u8> = Vec::new();
        k.encode(&mut bytes);
        assert(bytes@ =~= K::encoding(k@));
        let result = default_hash_bytes(bytes.as_slice());
        result % modulus
    }

    /// The slot at which the probe sequence of `key` starts.
    fn start_index(&self, key: &K) -> (index: usize)
        requires
            self.capacity > 0,
        ensures
            index == start_slot::<K>(key@, self.capacity as int),
            index < self.capacity,
    {
        proof {
            lemma_mod_bound(default_digest(K::encoding(key@)) as int, self.capacity as int);
        }
        Self::hash(key, self.capacity as u64) as usize
    }

    /// Stores `value` under `key` in the first slot of the key's probe
    /// sequence that is free or already holds the key, and says whether there
    /// was such a slot.
    pub fn insert(&mut self, key: K, value: V) -> (stored: bool)
        requires
            old(self).wf(),
            old(self).spec_capacity() > 0,
        ensures
            final(self).wf(),
            final(self).spec_capacity() == old(self).spec_capacity(),
            match landing(
                old(self).slots(),
                key@,
                start_slot::<K>(key@, old(self).spec_capacity() as int),
                0,
            ) {
                Some(steps) => stored && final(self).slots() == old(self).slots().update(
                    slot_after(
                        start_slot::<K>(key@, old(self).spec_capacity() as int),
                        steps,
                        old(self).spec_capacity() as int,
                    ),
                    Slot::Occupied((key, value)),
                ),
                None => !stored && final(self).slots() == old(self).slots(),
            },
    {
        let mut index = self.start_index(&key);
        let start_index = index;
        let ghost mut steps: int = 0;
        loop
            invariant
                self.array@ == old(self).array@,
                self.capacity == old(self).capacity,
                self.array@.len() == self.capacity,
                start_index < self.capacity,
                start_index == start_slot::<K>(key@, self.capacity as int),
                0 <= steps < self.capacity,
                index == slot_after(start_index as int, steps, self.capacity as int),
                landing(self.array@, key@, start_index as int, 0) == landing(
                    self.array@,
                    key@,
                    start_index as int,
                    steps,
                ),
            decreases self.capacity - steps,
        {
            let free_or_same = match &self.array[index] {
                Slot::Empty | Slot::Deleted => true,
                Slot::Occupied((existing_key, _)) => existing_key.same(&key),
            };
            if free_or_same {
                self.array[index] = Slot::Occupied((key, value));
                return true;
            }
            index = step(index, self.capacity);
            if index == start_index {
                assert(landing(self.array@, key@, start_index as int, steps + 1) is None);
                return false;
            }
            proof {
                steps = steps + 1;
            }
        }
    }

    /// Marks the slot at which the probe sequence of `key` starts as deleted
    /// and gives what the slot held, whichever key that was.
    pub fn delete(&mut self, key: K) -> (held: Slot<K, V>)
        requires
            old(self).wf(),
            old(self).spec_capacity() > 0,
        ensures
            final(self).wf(),
            final(self).spec_capacity() == old(self).spec_capacity(),
            held == old(self).slots()[start_slot::<K>(key@, old(self).spec_capacity() as int)],
            final(self).slots() == old(self).slots().update(
                start_slot::<K>(key@, old(self).spec_capacity() as int),
                Slot::Deleted,
            ),
    {
        let index = self.start_index(&key);
        let mut delete_value = Slot::Deleted;
        std::mem::swap(&mut self.array[index], &mut delete_value);
        delete_value
    }

    /// Looks for `key` along its probe sequence, passing deleted slots and
    /// other keys, and gives the entry that holds it. Gives `Empty` where the
    /// search meets a slot that was never used, or has gone round the table.
    pub fn find(&self, key: K) -> (found: Slot<&K, &V>)
        requires
            self.wf(),
            self.spec_capacity() > 0,
        ensures
            match resting(self.slots(), key@, start_slot::<K>(key@, self.spec_capacity() as int), 0) {
                Some(steps) => match self.slots()[slot_after(
                    start_slot::<K>(key@, self.spec_capacity() as int),
                    steps,
                    self.spec_capacity() as int,
                )] {
                    Slot::Occupied(entry) => found == Slot::Occupied((&entry.0, &entry.1)),
                    _ => found is Empty,
                },
                None => found is Empty,
            },
    {
        let mut index = self.start_index(&key);
        let start_index = index;
        let ghost mut steps: int = 0;
        loop
            invariant
                self.array@.len() == self.capacity,
                start_index < self.capacity,
                start_index == start_slot::<K>(key@, self.capacity as int),
                0 <= steps < self.capacity,
                index == slot_after(start_index as int, steps, self.capacity as int),
                resting(self.array@, key@, start_index as int, 0) == resting(
                    self.array@,
                    key@,
                    start_index as int,
                    steps,
                ),
            decreases self.capacity - steps,
        {
            match &self.array[index] {
                Slot::Occupied((k, v)) => {
                    if k.same(&key) {
                        return Slot::Occupied((k, v));
                    }
                },
                Slot::Empty => return Slot::Empty,
                Slot::Deleted => {},
            }
            index = step(index, self.capacity);
            if index == start_index {
                assert(resting(self.array@, key@, start_index as int, steps + 1) is None);
                return Slot::Empty;
            }
            proof {
                steps = steps + 1;
            }
        }
    }
}

} // verus!
