//! The mathematical model of a Robin Hood table: what its slots hold, which
//! tables are well formed, and the abstract map that a table stands for.

use crate::hashing::fx_digest;
use crate::key::Key;
use crate::probe::{next_slot, prev_slot, probe_distance, slot_after};
use vstd::prelude::*;

verus! {

/// An entry of the table, with the length of its probe sequence: one more than
/// the number of forward steps from the key's home slot to the slot it is in.
#[derive(Debug, Clone, Hash)]
pub struct Bucket<K, V> {
    pub key: K,
    pub value: V,
    pub probe_length: usize,
}

/// The slot at which the search for a key with view `kv` starts.
pub open spec fn home<K: Key>(kv: K::V, cap: int) -> int {
    (fx_digest(K::encoding(kv)) as int) % cap
}

/// Slot `i` is occupied by the key with view `kv`.
pub open spec fn holds<K: Key, V>(slots: Seq<Option<Bucket<K, V>>>, i: int, kv: K::V) -> bool {
    &&& 0 <= i < slots.len()
    &&& slots[i] is Some
    &&& slots[i]->0.key@ == kv
}

/// The abstract map that the slots stand for.
pub open spec fn model<K: Key, V>(slots: Seq<Option<Bucket<K, V>>>) -> Map<K::V, V> {
    Map::new(
        |kv: K::V| exists|i: int| holds(slots, i, kv),
        |kv: K::V| slots[choose|i: int| holds(slots, i, kv)]->0.value,
    )
}

/// Every stored probe length is the one recomputed from the key's home slot
/// and the slot the entry is in.
pub open spec fn psl_consistent<K: Key, V>(slots: Seq<Option<Bucket<K, V>>>) -> bool {
    forall|i: int|
        0 <= i < slots.len() && (#[trigger] slots[i]) is Some ==> slots[i]->0.probe_length
            == probe_distance(home::<K>(slots[i]->0.key@, slots.len() as int), i, slots.len() as int) + 1
}

/// The entry in slot `i`, if there is one and it is not in its home slot,
/// follows an entry whose probe length is at most one less than its own.
pub open spec fn may_follow<K, V>(slots: Seq<Option<Bucket<K, V>>>, i: int) -> bool {
    slots[i] is Some && slots[i]->0.probe_length >= 2 ==> {
        let p = prev_slot(i, slots.len() as int);
        slots[p] is Some && slots[p]->0.probe_length + 1 >= slots[i]->0.probe_length
    }
}

/// Every entry may follow the entry before it: along a run of occupied slots
/// probe lengths grow by at most one from slot to slot.
pub open spec fn robin_ordered<K, V>(slots: Seq<Option<Bucket<K, V>>>) -> bool {
    forall|i: int| 0 <= i < slots.len() ==> #[trigger] may_follow(slots, i)
}

/// No key occupies two slots.
pub open spec fn keys_distinct<K: Key, V>(slots: Seq<Option<Bucket<K, V>>>) -> bool {
    forall|i: int, j: int|
        0 <= i < slots.len() && 0 <= j < slots.len() && i != j && (#[trigger] slots[i]) is Some && (
        #[trigger] slots[j]) is Some ==> slots[i]->0.key@ != slots[j]->0.key@
}

/// No stored probe length exceeds `max`.
pub open spec fn psl_bounded<K, V>(slots: Seq<Option<Bucket<K, V>>>, max: int) -> bool {
    forall|i: int|
        0 <= i < slots.len() && (#[trigger] slots[i]) is Some ==> slots[i]->0.probe_length <= max
}

/// Between an entry's home slot and the entry itself there is no empty slot.
pub open spec fn gap_free<K: Key, V>(slots: Seq<Option<Bucket<K, V>>>) -> bool {
    forall|i: int, j: int|
        0 <= i < slots.len() && (#[trigger] slots[i]) is Some && 0 <= j < slots[i]->0.probe_length - 1
            ==> slots[#[trigger] slot_after(
            home::<K>(slots[i]->0.key@, slots.len() as int),
            j,
            slots.len() as int,
        )] is Some
}

/// The number of occupied slots.
pub open spec fn occupied<K, V>(slots: Seq<Option<Bucket<K, V>>>) -> nat
    decreases slots.len(),
{
    if slots.len() == 0 {
        0
    } else {
        occupied(slots.drop_last()) + if slots.last() is Some {
            1nat
        } else {
            0nat
        }
    }
}

/// The sum of the probe lengths of all entries.
pub open spec fn psl_total<K, V>(slots: Seq<Option<Bucket<K, V>>>) -> nat
    decreases slots.len(),
{
    if slots.len() == 0 {
        0
    } else {
        psl_total(slots.drop_last()) + if slots.last() is Some {
            slots.last()->0.probe_length as nat
        } else {
            0nat
        }
    }
}

/// The slot that holds the key with view `kv`, if any slot does.
pub open spec fn slot_of<K: Key, V>(slots: Seq<Option<Bucket<K, V>>>, kv: K::V) -> int {
    choose|i: int| holds(slots, i, kv)
}

/// What a lookup of `kv` gives in a map that stands for `m`.
pub open spec fn lookup<T, V>(m: Map<T, V>, kv: T) -> Option<V> {
    if m.contains_key(kv) {
        Some(m[kv])
    } else {
        None
    }
}

/// Whether a table of `cap` slots that stands for `m` takes an entry for `kv`:
/// the key is already there, or a slot is free.
pub open spec fn accepts<T, V>(m: Map<T, V>, cap: nat, kv: T) -> bool {
    m.contains_key(kv) || m.dom().len() < cap
}

/// An insertion stands at slot `index` with the entry `incoming` in hand, on
/// its way to slot `goal`: the entry's probe length fits the slot, the walk
/// will reach the goal before it has gone round the table, and the slot just
/// passed holds an entry that the one in hand may follow.
pub open spec fn carrying<K: Key, V>(
    slots: Seq<Option<Bucket<K, V>>>,
    incoming: Bucket<K, V>,
    index: int,
    goal: int,
) -> bool {
    let cap = slots.len() as int;
    &&& 0 <= index < cap
    &&& 0 <= goal < cap
    &&& incoming.probe_length >= 1
    &&& incoming.probe_length == probe_distance(home::<K>(incoming.key@, cap), index, cap) + 1
    &&& incoming.probe_length + probe_distance(index, goal, cap) <= cap
    &&& incoming.probe_length >= 2 ==> {
        let p = prev_slot(index, cap);
        slots[p] is Some && slots[p]->0.probe_length + 1 >= incoming.probe_length
    }
}

/// The entry `b` after one more step of its walk.
pub open spec fn stepped<K, V>(b: Bucket<K, V>) -> Bucket<K, V> {
    Bucket { key: b.key, value: b.value, probe_length: (b.probe_length + 1) as usize }
}

/// The larger of two bounds.
pub open spec fn raised(max: int, psl: int) -> int {
    if psl > max {
        psl
    } else {
        max
    }
}

/// The entry `b` after it has moved one slot back towards its home slot.
pub open spec fn shifted<K, V>(b: Bucket<K, V>) -> Bucket<K, V> {
    Bucket { key: b.key, value: b.value, probe_length: (b.probe_length - 1) as usize }
}

/// A deletion has emptied slot `hole`, which held an entry with probe length
/// `gone`: the table is well formed but for the entry after the hole, which
/// may have to move back into it.
pub open spec fn shifting<K: Key, V>(
    slots: Seq<Option<Bucket<K, V>>>,
    max: int,
    hole: int,
    gone: int,
) -> bool {
    let cap = slots.len() as int;
    &&& 0 <= hole < cap
    &&& slots[hole] is None
    &&& psl_consistent(slots)
    &&& keys_distinct(slots)
    &&& psl_bounded(slots, max)
    &&& forall|i: int| 0 <= i < cap && i != next_slot(hole, cap) ==> #[trigger] may_follow(slots, i)
    &&& gone >= 1
    &&& gone >= 2 ==> {
        let p = prev_slot(hole, cap);
        slots[p] is Some && slots[p]->0.probe_length + 1 >= gone
    }
    &&& slots[next_slot(hole, cap)] is Some ==> slots[next_slot(hole, cap)]->0.probe_length <= gone + 1
}

/// The slots after an insertion that stands at slot `index` with the entry
/// `incoming` in hand and may take `budget` more steps.
///
/// An empty slot takes the entry. A slot that holds the same key keeps its
/// entry and takes the new value. A slot whose entry is closer to its home
/// slot than the entry in hand takes the entry in hand, and the walk goes on
/// with the evicted entry. Any other slot is passed.
pub open spec fn placed<K: Key, V>(
    slots: Seq<Option<Bucket<K, V>>>,
    incoming: Bucket<K, V>,
    index: int,
    budget: nat,
) -> Seq<Option<Bucket<K, V>>>
    decreases budget,
{
    if budget == 0 || !(0 <= index < slots.len()) {
        slots
    } else {
        match slots[index] {
            None => slots.update(index, Some(incoming)),
            Some(resident) => if resident.key@ == incoming.key@ {
                slots.update(
                    index,
                    Some(
                        Bucket {
                            key: resident.key,
                            value: incoming.value,
                            probe_length: resident.probe_length,
                        },
                    ),
                )
            } else if resident.probe_length < incoming.probe_length {
                placed(
                    slots.update(index, Some(incoming)),
                    stepped(resident),
                    next_slot(index, slots.len() as int),
                    (budget - 1) as nat,
                )
            } else {
                placed(slots, stepped(incoming), next_slot(index, slots.len() as int), (budget - 1) as nat)
            },
        }
    }
}

/// The slots after the backward shift that closes the gap at the empty slot
/// `hole`: as long as the slot after the hole holds an entry that is not in
/// its home slot, the entry moves into the hole and leaves the hole behind.
pub open spec fn closed_up<K, V>(slots: Seq<Option<Bucket<K, V>>>, hole: int) -> Seq<Option<Bucket<K, V>>>
    decreases psl_total(slots),
{
    let next = next_slot(hole, slots.len() as int);
    if 0 <= hole < slots.len() && 0 <= next < slots.len() && slots[hole] is None && slots[next] is Some
        && slots[next]->0.probe_length >= 2 {
        let moved = slots.update(next, None).update(hole, Some(shifted(slots[next]->0)));
        proof {
            crate::robin_hood_lemmas::lemma_psl_total_update(slots, next, None);
            crate::robin_hood_lemmas::lemma_psl_total_update(
                slots.update(next, None),
                hole,
                Some(shifted(slots[next]->0)),
            );
        }
        closed_up(moved, next)
    } else {
        slots
    }
}

/// The bound `max` on probe lengths is no looser than it has to be: it is
/// still the earlier bound `floor`, or some entry has that probe length.
pub open spec fn tight<K, V>(slots: Seq<Option<Bucket<K, V>>>, max: int, floor: int) -> bool {
    max == floor || exists|i: int|
        0 <= i < slots.len() && (#[trigger] slots[i]) is Some && slots[i]->0.probe_length == max
}

/// The structural invariant of a table whose probe lengths are bounded by `max`.
pub open spec fn well_formed<K: Key, V>(slots: Seq<Option<Bucket<K, V>>>, max: int) -> bool {
    &&& slots.len() > 0
    &&& psl_consistent(slots)
    &&& robin_ordered(slots)
    &&& keys_distinct(slots)
    &&& psl_bounded(slots, max)
}

} // verus!
