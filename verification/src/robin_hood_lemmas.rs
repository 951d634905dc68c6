//! Facts about the model of a Robin Hood table that the operations rely on.

use crate::key::Key;
use crate::probe::{next_slot, prev_slot, probe_distance, slot_after};
use crate::robin_hood_model::{
    carrying, gap_free, holds, home, keys_distinct, may_follow, model, occupied, psl_bounded,
    psl_consistent, psl_total, raised, robin_ordered, shifted, shifting, stepped, tight, well_formed,
    Bucket,
};
use vstd::arithmetic::div_mod::lemma_mod_bound;
use vstd::prelude::*;

verus! {

/// The home slot of a key lies inside the table.
pub proof fn lemma_home_in_range<K: Key>(kv: K::V, cap: int)
    requires
        cap > 0,
    ensures
        0 <= home::<K>(kv, cap) < cap,
{
    lemma_mod_bound(crate::hashing::fx_digest(K::encoding(kv)) as int, cap);
}

/// With distinct keys, the model maps the key of each occupied slot to the
/// value in that slot.
pub proof fn lemma_model_at<K: Key, V>(slots: Seq<Option<Bucket<K, V>>>, i: int)
    requires
        keys_distinct(slots),
        0 <= i < slots.len(),
        slots[i] is Some,
    ensures
        model(slots).contains_key(slots[i]->0.key@),
        model(slots)[slots[i]->0.key@] == slots[i]->0.value,
{
    let kv = slots[i]->0.key@;
    assert(holds(slots, i, kv));
    let c = choose|c: int| holds(slots, c, kv);
    assert(c == i);
}

/// A key that no slot holds is not in the model.
pub proof fn lemma_model_absent<K: Key, V>(slots: Seq<Option<Bucket<K, V>>>, kv: K::V)
    requires
        forall|i: int| 0 <= i < slots.len() && (#[trigger] slots[i]) is Some ==> slots[i]->0.key@ != kv,
    ensures
        !model(slots).contains_key(kv),
{
}

/// Filling an empty slot with a new key inserts the entry into the model.
pub proof fn lemma_model_place<K: Key, V>(slots: Seq<Option<Bucket<K, V>>>, i: int, b: Bucket<K, V>)
    requires
        keys_distinct(slots),
        0 <= i < slots.len(),
        slots[i] is None,
        !model(slots).contains_key(b.key@),
    ensures
        keys_distinct(slots.update(i, Some(b))),
        model(slots.update(i, Some(b))) == model(slots).insert(b.key@, b.value),
{
    let after = slots.update(i, Some(b));
    assert forall|x: int, y: int|
        0 <= x < after.len() && 0 <= y < after.len() && x != y && (#[trigger] after[x]) is Some && (
        #[trigger] after[y]) is Some implies after[x]->0.key@ != after[y]->0.key@ by {
        if x == i {
            assert(holds(slots, y, slots[y]->0.key@));
        } else if y == i {
            assert(holds(slots, x, slots[x]->0.key@));
        }
    }
    lemma_model_at(after, i);
    assert forall|kv: K::V| #[trigger]
        model(after).contains_key(kv) == model(slots).insert(b.key@, b.value).contains_key(kv) by {
        if model(after).contains_key(kv) {
            let c = choose|c: int| holds(after, c, kv);
            if c != i {
                assert(holds(slots, c, kv));
            }
        }
        if model(slots).contains_key(kv) {
            let c = choose|c: int| holds(slots, c, kv);
            assert(holds(after, c, kv));
        }
    }
    assert forall|kv: K::V| #[trigger] model(after).contains_key(kv) implies model(after)[kv]
        == model(slots).insert(b.key@, b.value)[kv] by {
        let c = choose|c: int| holds(after, c, kv);
        lemma_model_at(after, c);
        if c != i {
            lemma_model_at(slots, c);
        }
    }
    assert(model(after) =~= model(slots).insert(b.key@, b.value));
}

/// Emptying an occupied slot removes its key from the model.
pub proof fn lemma_model_clear<K: Key, V>(slots: Seq<Option<Bucket<K, V>>>, i: int)
    requires
        keys_distinct(slots),
        0 <= i < slots.len(),
        slots[i] is Some,
    ensures
        keys_distinct(slots.update(i, None)),
        model(slots.update(i, None)) == model(slots).remove(slots[i]->0.key@),
{
    let after = slots.update(i, None::<Bucket<K, V>>);
    let gone = slots[i]->0.key@;
    assert forall|x: int, y: int|
        0 <= x < after.len() && 0 <= y < after.len() && x != y && (#[trigger] after[x]) is Some && (
        #[trigger] after[y]) is Some implies after[x]->0.key@ != after[y]->0.key@ by {
        assert(slots[x] is Some && slots[y] is Some);
    }
    assert forall|kv: K::V| #[trigger]
        model(after).contains_key(kv) == model(slots).remove(gone).contains_key(kv) by {
        if model(after).contains_key(kv) {
            let c = choose|c: int| holds(after, c, kv);
            assert(holds(slots, c, kv));
            assert(slots[c] is Some && slots[i] is Some);
        }
        if model(slots).remove(gone).contains_key(kv) {
            let c = choose|c: int| holds(slots, c, kv);
            assert(holds(after, c, kv));
        }
    }
    assert forall|kv: K::V| #[trigger] model(after).contains_key(kv) implies model(after)[kv]
        == model(slots).remove(gone)[kv] by {
        let c = choose|c: int| holds(after, c, kv);
        lemma_model_at(after, c);
        lemma_model_at(slots, c);
    }
    assert(model(after) =~= model(slots).remove(gone));
}

/// Replacing the entry of a slot by one with the same key and the same value
/// leaves the model unchanged; with another value, the model is updated.
pub proof fn lemma_model_rewrite<K: Key, V>(slots: Seq<Option<Bucket<K, V>>>, i: int, b: Bucket<K, V>)
    requires
        keys_distinct(slots),
        0 <= i < slots.len(),
        slots[i] is Some,
        slots[i]->0.key@ == b.key@,
    ensures
        keys_distinct(slots.update(i, Some(b))),
        model(slots.update(i, Some(b))) == model(slots).insert(b.key@, b.value),
{
    let cleared = slots.update(i, None::<Bucket<K, V>>);
    lemma_model_clear(slots, i);
    lemma_model_place(cleared, i, b);
    assert(cleared.update(i, Some(b)) =~= slots.update(i, Some(b)));
    assert(model(slots).remove(b.key@).insert(b.key@, b.value) =~= model(slots).insert(b.key@, b.value));
}

/// Counting the occupied slots after one slot has changed.
pub proof fn lemma_occupied_update<K, V>(slots: Seq<Option<Bucket<K, V>>>, i: int, slot: Option<Bucket<K, V>>)
    requires
        0 <= i < slots.len(),
    ensures
        occupied(slots.update(i, slot)) + (if slots[i] is Some { 1nat } else { 0nat })
            == occupied(slots) + (if slot is Some { 1nat } else { 0nat }),
    decreases slots.len(),
{
    let after = slots.update(i, slot);
    if i == slots.len() - 1 {
        assert(after.drop_last() =~= slots.drop_last());
    } else {
        assert(after.drop_last() =~= slots.drop_last().update(i, slot));
        lemma_occupied_update(slots.drop_last(), i, slot);
    }
}

/// Summing the probe lengths after one slot has changed.
pub proof fn lemma_psl_total_update<K, V>(slots: Seq<Option<Bucket<K, V>>>, i: int, slot: Option<Bucket<K, V>>)
    requires
        0 <= i < slots.len(),
    ensures
        psl_total(slots.update(i, slot)) + (if slots[i] is Some { slots[i]->0.probe_length as nat } else { 0nat })
            == psl_total(slots) + (if slot is Some { slot->0.probe_length as nat } else { 0nat }),
    decreases slots.len(),
{
    let after = slots.update(i, slot);
    if i == slots.len() - 1 {
        assert(after.drop_last() =~= slots.drop_last());
    } else {
        assert(after.drop_last() =~= slots.drop_last().update(i, slot));
        lemma_psl_total_update(slots.drop_last(), i, slot);
    }
}

/// A table whose slots are all empty has no occupied slot.
pub proof fn lemma_occupied_none<K, V>(slots: Seq<Option<Bucket<K, V>>>)
    requires
        forall|i: int| 0 <= i < slots.len() ==> (#[trigger] slots[i]) is None,
    ensures
        occupied(slots) == 0,
    decreases slots.len(),
{
    if slots.len() > 0 {
        let front = slots.drop_last();
        assert forall|i: int| 0 <= i < front.len() implies (#[trigger] front[i]) is None by {
            assert(slots[i] is None);
        }
        lemma_occupied_none(front);
    }
}

/// Putting a key that the table does not hold in place of the entry of an
/// occupied slot: the evicted key leaves the table, and putting it back into
/// the model gives the model of the old table with the new entry added.
pub proof fn lemma_model_evict<K: Key, V>(slots: Seq<Option<Bucket<K, V>>>, i: int, b: Bucket<K, V>)
    requires
        keys_distinct(slots),
        0 <= i < slots.len(),
        slots[i] is Some,
        !model(slots).contains_key(b.key@),
    ensures
        keys_distinct(slots.update(i, Some(b))),
        !model(slots.update(i, Some(b))).contains_key(slots[i]->0.key@),
        model(slots.update(i, Some(b))).insert(slots[i]->0.key@, slots[i]->0.value) == model(slots).insert(
            b.key@,
            b.value,
        ),
{
    let cleared = slots.update(i, None::<Bucket<K, V>>);
    let evicted = slots[i]->0;
    lemma_model_at(slots, i);
    lemma_model_clear(slots, i);
    lemma_model_place(cleared, i, b);
    assert(cleared.update(i, Some(b)) =~= slots.update(i, Some(b)));
    assert(model(slots).remove(evicted.key@).insert(b.key@, b.value).insert(evicted.key@, evicted.value)
        =~= model(slots).insert(b.key@, b.value));
}

/// The count of occupied slots never exceeds the number of slots, and a table
/// with fewer occupied slots than slots has an empty one.
pub proof fn lemma_occupied_bound<K, V>(slots: Seq<Option<Bucket<K, V>>>)
    ensures
        occupied(slots) <= slots.len(),
        occupied(slots) < slots.len() ==> exists|i: int| 0 <= i < slots.len() && (#[trigger] slots[i]) is None,
        occupied(slots) == 0 ==> forall|i: int| 0 <= i < slots.len() ==> (#[trigger] slots[i]) is None,
    decreases slots.len(),
{
    if slots.len() > 0 {
        let front = slots.drop_last();
        lemma_occupied_bound(front);
        if occupied(slots) < slots.len() {
            if slots.last() is Some {
                let i = choose|i: int| 0 <= i < front.len() && (#[trigger] front[i]) is None;
                assert(slots[i] is None);
            } else {
                assert(slots[slots.len() - 1] is None);
            }
        }
        if occupied(slots) == 0 {
            assert forall|i: int| 0 <= i < slots.len() implies (#[trigger] slots[i]) is None by {
                if i < front.len() {
                    assert(front[i] is None);
                }
            }
        }
    }
}

/// With distinct keys, the model has as many keys as there are occupied slots.
pub proof fn lemma_model_size<K: Key, V>(slots: Seq<Option<Bucket<K, V>>>)
    requires
        keys_distinct(slots),
    ensures
        model(slots).dom().finite(),
        model(slots).dom().len() == occupied(slots),
    decreases slots.len(),
{
    if slots.len() == 0 {
        assert(model(slots).dom() =~= Set::<K::V>::empty());
    } else {
        let front = slots.drop_last();
        let last = slots.len() - 1;
        assert forall|x: int, y: int|
            0 <= x < front.len() && 0 <= y < front.len() && x != y && (#[trigger] front[x]) is Some && (
            #[trigger] front[y]) is Some implies front[x]->0.key@ != front[y]->0.key@ by {
            assert(slots[x] is Some && slots[y] is Some);
        }
        lemma_model_size(front);
        let blank = slots.update(last, None::<Bucket<K, V>>);
        assert forall|kv: K::V| #[trigger] model(blank).contains_key(kv) == model(front).contains_key(kv) by {
            if model(blank).contains_key(kv) {
                let c = choose|c: int| holds(blank, c, kv);
                assert(holds(front, c, kv));
            }
            if model(front).contains_key(kv) {
                let c = choose|c: int| holds(front, c, kv);
                assert(holds(blank, c, kv));
            }
        }
        assert(model(blank).dom() =~= model(front).dom());
        if slots[last] is Some {
            lemma_model_clear(slots, last);
            let kv = slots[last]->0.key@;
            lemma_model_at(slots, last);
            assert(model(slots).dom() =~= model(blank).dom().insert(kv));
        } else {
            assert(blank =~= slots);
        }
    }
}

/// Walking back from an occupied slot, every slot up to the entry's home slot
/// is occupied, by an entry that is at least as far from its own home slot as
/// the walk is from the entry's.
pub proof fn lemma_path_occupied<K: Key, V>(slots: Seq<Option<Bucket<K, V>>>, i: int, back: int)
    requires
        slots.len() > 0,
        psl_consistent(slots),
        robin_ordered(slots),
        0 <= i < slots.len(),
        slots[i] is Some,
        0 <= back < slots[i]->0.probe_length,
    ensures
        ({
            let cap = slots.len() as int;
            let h = home::<K>(slots[i]->0.key@, cap);
            let at = slot_after(h, slots[i]->0.probe_length - 1 - back, cap);
            &&& 0 <= at < cap
            &&& probe_distance(at, i, cap) == back
            &&& slots[at] is Some
            &&& slots[at]->0.probe_length + back >= slots[i]->0.probe_length
        }),
    decreases back,
{
    let cap = slots.len() as int;
    lemma_home_in_range::<K>(slots[i]->0.key@, cap);
    if back > 0 {
        lemma_path_occupied(slots, i, back - 1);
        let h = home::<K>(slots[i]->0.key@, cap);
        let near = slot_after(h, slots[i]->0.probe_length - back, cap);
        lemma_home_in_range::<K>(slots[near]->0.key@, cap);
        assert(may_follow(slots, near));
        assert(slots[near]->0.probe_length >= 2);
        assert(prev_slot(near, cap) == slot_after(h, slots[i]->0.probe_length - 1 - back, cap));
    }
}

/// A well-ordered table has no empty slot between an entry and its home slot.
pub proof fn lemma_gap_free<K: Key, V>(slots: Seq<Option<Bucket<K, V>>>)
    requires
        slots.len() > 0,
        psl_consistent(slots),
        robin_ordered(slots),
    ensures
        gap_free(slots),
{
    assert forall|i: int, j: int|
        0 <= i < slots.len() && (#[trigger] slots[i]) is Some && 0 <= j < slots[i]->0.probe_length - 1 implies slots[#[trigger] slot_after(
        home::<K>(slots[i]->0.key@, slots.len() as int),
        j,
        slots.len() as int,
    )] is Some by {
        lemma_path_occupied(slots, i, slots[i]->0.probe_length - 1 - j);
    }
}

/// Where the search for a key stops early, the key is not in the table.
///
/// The search has gone `steps` steps from the key's home slot without finding
/// the key, and stands on a slot that is empty or holds an entry closer to its
/// own home slot than the search is to the key's.
pub proof fn lemma_search_ends<K: Key, V>(slots: Seq<Option<Bucket<K, V>>>, kv: K::V, steps: int)
    requires
        slots.len() > 0,
        psl_consistent(slots),
        robin_ordered(slots),
        0 <= steps < slots.len(),
        forall|i: int| holds(slots, i, kv) ==> slots[i]->0.probe_length > steps,
        ({
            let at = slot_after(home::<K>(kv, slots.len() as int), steps, slots.len() as int);
            slots[at] is None || slots[at]->0.probe_length <= steps
        }),
    ensures
        forall|i: int| !holds(slots, i, kv),
{
    assert forall|i: int| !holds(slots, i, kv) by {
        if holds(slots, i, kv) {
            lemma_path_occupied(slots, i, slots[i]->0.probe_length - 1 - steps);
        }
    }
}

/// A search that stands at slot `index` with probe length `psl`, has not met
/// the key so far, and finds the slot empty or held by an entry with a shorter
/// probe length, shows that the key is not in the table.
pub proof fn lemma_walk_absent<K: Key, V>(slots: Seq<Option<Bucket<K, V>>>, kv: K::V, index: int, psl: int)
    requires
        slots.len() > 0,
        psl_consistent(slots),
        robin_ordered(slots),
        0 <= index < slots.len(),
        1 <= psl <= slots.len(),
        psl == probe_distance(home::<K>(kv, slots.len() as int), index, slots.len() as int) + 1,
        forall|i: int| holds(slots, i, kv) ==> slots[i]->0.probe_length >= psl,
        slots[index] is None || slots[index]->0.probe_length < psl,
    ensures
        !model(slots).contains_key(kv),
        forall|i: int| !holds(slots, i, kv),
{
    lemma_home_in_range::<K>(kv, slots.len() as int);
    lemma_search_ends(slots, kv, psl - 1);
}

/// A search that passes a slot held by another key will not meet the key with
/// the probe length it has now.
pub proof fn lemma_walk_miss<K: Key, V>(slots: Seq<Option<Bucket<K, V>>>, kv: K::V, index: int, psl: int)
    requires
        slots.len() > 0,
        psl_consistent(slots),
        0 <= index < slots.len(),
        psl == probe_distance(home::<K>(kv, slots.len() as int), index, slots.len() as int) + 1,
        forall|i: int| holds(slots, i, kv) ==> slots[i]->0.probe_length >= psl,
        !holds(slots, index, kv),
    ensures
        forall|i: int| holds(slots, i, kv) ==> slots[i]->0.probe_length >= psl + 1,
{
    lemma_home_in_range::<K>(kv, slots.len() as int);
    assert forall|i: int| holds(slots, i, kv) implies slots[i]->0.probe_length >= psl + 1 by {
        if slots[i]->0.probe_length == psl {
            assert(i == index);
        }
    }
}

/// Putting an entry into a slot keeps the order of the table, if the entry's
/// probe length fits the slot, the entry may follow the one before the slot,
/// and what the slot held was no farther from its home slot.
pub proof fn lemma_settle<K: Key, V>(slots: Seq<Option<Bucket<K, V>>>, max: int, b: Bucket<K, V>, index: int)
    requires
        slots.len() > 0,
        psl_consistent(slots),
        robin_ordered(slots),
        psl_bounded(slots, max),
        0 <= index < slots.len(),
        b.probe_length == probe_distance(home::<K>(b.key@, slots.len() as int), index, slots.len() as int)
            + 1,
        b.probe_length >= 2 ==> {
            let p = prev_slot(index, slots.len() as int);
            slots[p] is Some && slots[p]->0.probe_length + 1 >= b.probe_length
        },
        slots[index] is Some ==> slots[index]->0.probe_length <= b.probe_length,
    ensures
        psl_consistent(slots.update(index, Some(b))),
        robin_ordered(slots.update(index, Some(b))),
        psl_bounded(slots.update(index, Some(b)), raised(max, b.probe_length as int)),
{
    let after = slots.update(index, Some(b));
    let cap = slots.len() as int;
    lemma_home_in_range::<K>(b.key@, cap);
    assert forall|i: int| 0 <= i < after.len() && (#[trigger] after[i]) is Some implies after[i]->0.probe_length
        == probe_distance(home::<K>(after[i]->0.key@, cap), i, cap) + 1 by {
        if i != index {
            assert(slots[i] is Some);
        }
    }
    assert forall|i: int| 0 <= i < after.len() implies #[trigger] may_follow(after, i) by {
        assert(may_follow(slots, i));
        assert(may_follow(slots, next_slot(index, cap)));
    }
    assert forall|i: int| 0 <= i < after.len() && (#[trigger] after[i]) is Some implies after[i]->0.probe_length
        <= raised(max, b.probe_length as int) by {
        if i != index {
            assert(slots[i] is Some);
        }
    }
}

/// A bound that is raised to the probe length of an entry put into the table
/// stays tight, if what the slot held was no farther from its home slot.
pub proof fn lemma_tight_put<K, V>(
    slots: Seq<Option<Bucket<K, V>>>,
    max: int,
    floor: int,
    b: Bucket<K, V>,
    index: int,
)
    requires
        tight(slots, max, floor),
        0 <= index < slots.len(),
        slots[index] is Some ==> slots[index]->0.probe_length <= b.probe_length,
    ensures
        tight(slots.update(index, Some(b)), raised(max, b.probe_length as int), floor),
{
    let after = slots.update(index, Some(b));
    if b.probe_length > max {
        assert(after[index] is Some);
    } else if max != floor {
        let w = choose|w: int| 0 <= w < slots.len() && (#[trigger] slots[w]) is Some && slots[w]->0.probe_length == max;
        assert(after[w] is Some);
    }
}

/// Putting the entry in hand into the empty slot it stands at.
pub proof fn lemma_walk_place<K: Key, V>(
    slots: Seq<Option<Bucket<K, V>>>,
    max: int,
    incoming: Bucket<K, V>,
    index: int,
    goal: int,
)
    requires
        well_formed(slots, max),
        carrying(slots, incoming, index, goal),
        slots[index] is None,
        !model(slots).contains_key(incoming.key@),
    ensures
        well_formed(slots.update(index, Some(incoming)), raised(max, incoming.probe_length as int)),
        model(slots.update(index, Some(incoming))) == model(slots).insert(incoming.key@, incoming.value),
        occupied(slots.update(index, Some(incoming))) == occupied(slots) + 1,
        occupied(slots) < slots.len(),
        incoming.probe_length <= slots.len(),
{
    lemma_model_place(slots, index, incoming);
    lemma_occupied_update(slots, index, Some(incoming));
    lemma_occupied_bound(slots.update(index, Some(incoming)));
    lemma_settle(slots, max, incoming, index);
}

/// Giving the entry of an occupied slot a new value, under the same key and
/// with the same probe length.
pub proof fn lemma_walk_update<K: Key, V>(
    slots: Seq<Option<Bucket<K, V>>>,
    max: int,
    kept: Bucket<K, V>,
    index: int,
)
    requires
        well_formed(slots, max),
        0 <= index < slots.len(),
        slots[index] is Some,
        slots[index]->0.key@ == kept.key@,
        slots[index]->0.probe_length == kept.probe_length,
    ensures
        well_formed(slots.update(index, Some(kept)), max),
        model(slots.update(index, Some(kept))) == model(slots).insert(kept.key@, kept.value),
        occupied(slots.update(index, Some(kept))) == occupied(slots),
{
    lemma_model_rewrite(slots, index, kept);
    lemma_occupied_update(slots, index, Some(kept));
    assert(may_follow(slots, index));
    lemma_settle(slots, max, kept, index);
}

/// Passing a slot whose entry is at least as far from its home slot as the
/// entry in hand is from its own.
pub proof fn lemma_walk_pass<K: Key, V>(
    slots: Seq<Option<Bucket<K, V>>>,
    incoming: Bucket<K, V>,
    index: int,
    goal: int,
)
    requires
        0 < slots.len() <= usize::MAX,
        carrying(slots, incoming, index, goal),
        slots[index] is Some,
        slots[index]->0.probe_length >= incoming.probe_length,
        index != goal,
    ensures
        incoming.probe_length < slots.len(),
        carrying(slots, stepped(incoming), next_slot(index, slots.len() as int), goal),
        probe_distance(next_slot(index, slots.len() as int), goal, slots.len() as int) < probe_distance(
            index,
            goal,
            slots.len() as int,
        ),
{
    lemma_home_in_range::<K>(incoming.key@, slots.len() as int);
}

/// Putting the entry in hand in place of an entry that is closer to its home
/// slot: the table stays well formed, and the evicted entry takes the place of
/// the one in hand in the model.
pub proof fn lemma_walk_evict<K: Key, V>(
    slots: Seq<Option<Bucket<K, V>>>,
    max: int,
    incoming: Bucket<K, V>,
    index: int,
    goal: int,
)
    requires
        well_formed(slots, max),
        carrying(slots, incoming, index, goal),
        slots[index] is Some,
        slots[index]->0.probe_length < incoming.probe_length,
        !model(slots).contains_key(incoming.key@),
    ensures
        incoming.probe_length <= slots.len(),
        well_formed(slots.update(index, Some(incoming)), raised(max, incoming.probe_length as int)),
        occupied(slots.update(index, Some(incoming))) == occupied(slots),
        !model(slots.update(index, Some(incoming))).contains_key(slots[index]->0.key@),
        model(slots.update(index, Some(incoming))).insert(slots[index]->0.key@, slots[index]->0.value)
            == model(slots).insert(incoming.key@, incoming.value),
{
    lemma_model_evict(slots, index, incoming);
    lemma_occupied_update(slots, index, Some(incoming));
    lemma_settle(slots, max, incoming, index);
}

/// After an eviction the walk goes on with the evicted entry.
pub proof fn lemma_walk_carry_on<K: Key, V>(
    slots: Seq<Option<Bucket<K, V>>>,
    incoming: Bucket<K, V>,
    index: int,
    goal: int,
)
    requires
        0 < slots.len() <= usize::MAX,
        psl_consistent(slots),
        robin_ordered(slots),
        carrying(slots, incoming, index, goal),
        slots[index] is Some,
        slots[index]->0.probe_length < incoming.probe_length,
        index != goal,
    ensures
        slots[index]->0.probe_length < slots.len(),
        carrying(
            slots.update(index, Some(incoming)),
            stepped(slots[index]->0),
            next_slot(index, slots.len() as int),
            goal,
        ),
        probe_distance(next_slot(index, slots.len() as int), goal, slots.len() as int) < probe_distance(
            index,
            goal,
            slots.len() as int,
        ),
{
    let cap = slots.len() as int;
    lemma_home_in_range::<K>(incoming.key@, cap);
    lemma_home_in_range::<K>(slots[index]->0.key@, cap);
    assert(may_follow(slots, index));
}

/// Emptying the slot of the key to delete starts the backward shift.
pub proof fn lemma_shift_start<K: Key, V>(slots: Seq<Option<Bucket<K, V>>>, max: int, index: int)
    requires
        well_formed(slots, max),
        0 <= index < slots.len(),
        slots[index] is Some,
    ensures
        shifting(slots.update(index, None), max, index, slots[index]->0.probe_length as int),
        model(slots.update(index, None)) == model(slots).remove(slots[index]->0.key@),
        occupied(slots.update(index, None)) + 1 == occupied(slots),
{
    let after = slots.update(index, None::<Bucket<K, V>>);
    let cap = slots.len() as int;
    lemma_home_in_range::<K>(slots[index]->0.key@, cap);
    lemma_model_clear(slots, index);
    lemma_occupied_update(slots, index, None);
    assert forall|i: int| 0 <= i < after.len() && (#[trigger] after[i]) is Some implies after[i]->0.probe_length
        == probe_distance(home::<K>(after[i]->0.key@, cap), i, cap) + 1 by {
        assert(slots[i] is Some);
    }
    assert forall|i: int| 0 <= i < after.len() && (#[trigger] after[i]) is Some implies after[i]->0.probe_length
        <= max by {
        assert(slots[i] is Some);
    }
    assert forall|i: int| 0 <= i < cap && i != next_slot(index, cap) implies #[trigger] may_follow(after, i) by {
        assert(may_follow(slots, i));
    }
    assert(may_follow(slots, index));
    assert(may_follow(slots, next_slot(index, cap)));
}

/// One step of the backward shift: the entry after the hole moves into it.
pub proof fn lemma_shift_step<K: Key, V>(slots: Seq<Option<Bucket<K, V>>>, max: int, hole: int, gone: int)
    requires
        shifting(slots, max, hole, gone),
        slots[next_slot(hole, slots.len() as int)] is Some,
        slots[next_slot(hole, slots.len() as int)]->0.probe_length != 1,
    ensures
        ({
            let next = next_slot(hole, slots.len() as int);
            let moved = slots[next]->0;
            let after = slots.update(next, None).update(hole, Some(shifted(moved)));
            &&& next != hole
            &&& moved.probe_length >= 2
            &&& shifting(after, max, next, moved.probe_length as int)
            &&& model(after) == model(slots)
            &&& occupied(after) == occupied(slots)
            &&& psl_total(after) < psl_total(slots)
        }),
{
    let cap = slots.len() as int;
    let next = next_slot(hole, cap);
    let moved = slots[next]->0;
    let lifted = slots.update(next, None::<Bucket<K, V>>);
    let after = lifted.update(hole, Some(shifted(moved)));
    lemma_home_in_range::<K>(moved.key@, cap);
    assert(slots[next] is Some);
    lemma_model_at(slots, next);
    lemma_model_clear(slots, next);
    lemma_model_place(lifted, hole, shifted(moved));
    assert(model(after) =~= model(slots));
    lemma_occupied_update(slots, next, None);
    lemma_occupied_update(lifted, hole, Some(shifted(moved)));
    lemma_psl_total_update(slots, next, None);
    lemma_psl_total_update(lifted, hole, Some(shifted(moved)));
    assert forall|i: int| 0 <= i < after.len() && (#[trigger] after[i]) is Some implies after[i]->0.probe_length
        == probe_distance(home::<K>(after[i]->0.key@, cap), i, cap) + 1 by {
        if i != hole {
            assert(slots[i] is Some);
        }
    }
    assert forall|i: int| 0 <= i < after.len() && (#[trigger] after[i]) is Some implies after[i]->0.probe_length
        <= max by {
        if i != hole {
            assert(slots[i] is Some);
        }
    }
    assert forall|i: int| 0 <= i < cap && i != next_slot(next, cap) implies #[trigger] may_follow(after, i) by {
        if i != next && i != hole {
            assert(may_follow(slots, i));
        }
    }
    if next_slot(next, cap) != hole {
        assert(may_follow(slots, next_slot(next, cap)));
    }
}

/// The backward shift ends where the slot after the hole is empty or holds an
/// entry in its home slot: the table is well formed again.
pub proof fn lemma_shift_end<K: Key, V>(slots: Seq<Option<Bucket<K, V>>>, max: int, hole: int, gone: int)
    requires
        shifting(slots, max, hole, gone),
        slots[next_slot(hole, slots.len() as int)] is None || slots[next_slot(
            hole,
            slots.len() as int,
        )]->0.probe_length == 1,
    ensures
        well_formed(slots, max),
{
    let cap = slots.len() as int;
    assert forall|i: int| 0 <= i < cap implies #[trigger] may_follow(slots, i) by {}
}

} // verus!
