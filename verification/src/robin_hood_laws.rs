//! What holds of every use of the Robin Hood map, stated over the abstract
//! map that the operations' contracts speak of.

use crate::key::Key;
use crate::probe::lemma_probe_distance_is_mod;
use crate::robin_hood_hash_map::RobinHashMap;
use crate::robin_hood_lemmas::{
    lemma_gap_free, lemma_home_in_range, lemma_model_at, lemma_model_size, lemma_occupied_bound,
};
use crate::robin_hood_model::{accepts, gap_free, home, lookup, occupied};
use vstd::prelude::*;
use vstd::set_lib::lemma_len_subset;

verus! {

/// The keys of a sequence of entries.
pub open spec fn key_set<T, V>(entries: Seq<(T, V)>) -> Set<T>
    decreases entries.len(),
{
    if entries.len() == 0 {
        Set::empty()
    } else {
        key_set(entries.drop_last()).insert(entries.last().0)
    }
}

/// The map that a new table of `cap` slots stands for after the entries have
/// been inserted in order; `None` if one of the insertions is refused.
pub open spec fn after_inserts<T, V>(cap: nat, entries: Seq<(T, V)>) -> Option<Map<T, V>>
    decreases entries.len(),
{
    if entries.len() == 0 {
        Some(Map::empty())
    } else {
        match after_inserts(cap, entries.drop_last()) {
            Some(m) => if accepts(m, cap, entries.last().0) {
                Some(m.insert(entries.last().0, entries.last().1))
            } else {
                None
            },
            None => None,
        }
    }
}

/// No two entries of the sequence have the same key.
pub open spec fn distinct_keys<T, V>(entries: Seq<(T, V)>) -> bool {
    forall|i: int, j: int| 0 <= i < j < entries.len() ==> entries[i].0 != entries[j].0
}

/// The keys of a sequence are finitely many, no more than its entries.
pub proof fn lemma_key_set_finite<T, V>(entries: Seq<(T, V)>)
    ensures
        key_set(entries).finite(),
        key_set(entries).len() <= entries.len(),
    decreases entries.len(),
{
    if entries.len() > 0 {
        lemma_key_set_finite(entries.drop_last());
    }
}

/// A key of the sequence is the key of one of its entries.
pub proof fn lemma_key_set_witness<T, V>(entries: Seq<(T, V)>, key: T) -> (i: int)
    requires
        key_set(entries).contains(key),
    ensures
        0 <= i < entries.len(),
        entries[i].0 == key,
    decreases entries.len(),
{
    if entries.last().0 == key {
        entries.len() - 1
    } else {
        lemma_key_set_witness(entries.drop_last(), key)
    }
}

/// A sequence in which no key occurs twice has as many keys as entries.
pub proof fn lemma_key_set_distinct<T, V>(entries: Seq<(T, V)>)
    requires
        distinct_keys(entries),
    ensures
        key_set(entries).len() == entries.len(),
    decreases entries.len(),
{
    if entries.len() > 0 {
        let front = entries.drop_last();
        assert forall|i: int, j: int| 0 <= i < j < front.len() implies front[i].0 != front[j].0 by {
            assert(entries[i].0 != entries[j].0);
        }
        lemma_key_set_distinct(front);
        lemma_key_set_finite(front);
        if key_set(front).contains(entries.last().0) {
            let i = lemma_key_set_witness(front, entries.last().0);
            assert(entries[i].0 != entries[entries.len() - 1].0);
        }
    }
}

/// Insertions into a new table are all taken as long as the keys are no more
/// than the table has slots; the map then holds exactly the keys inserted.
pub proof fn lemma_inserts_taken<T, V>(cap: nat, entries: Seq<(T, V)>)
    requires
        key_set(entries).len() <= cap,
    ensures
        after_inserts(cap, entries) is Some,
        after_inserts(cap, entries)->0.dom() == key_set(entries),
    decreases entries.len(),
{
    if entries.len() > 0 {
        let front = entries.drop_last();
        let last = entries.last();
        lemma_key_set_finite(front);
        lemma_key_set_finite(entries);
        assert(key_set(front).subset_of(key_set(entries)));
        lemma_len_subset(key_set(front), key_set(entries));
        lemma_inserts_taken(cap, front);
        let m = after_inserts(cap, front)->0;
        assert(accepts(m, cap, last.0));
        assert(m.insert(last.0, last.1).dom() =~= key_set(entries));
    } else {
        assert(Map::<T, V>::empty().dom() =~= key_set(entries));
    }
}

/// After insertions that were all taken, a key maps to the value of the last
/// entry that was inserted under it.
pub proof fn lemma_last_written<T, V>(cap: nat, entries: Seq<(T, V)>, i: int)
    requires
        after_inserts(cap, entries) is Some,
        0 <= i < entries.len(),
        forall|j: int| i < j < entries.len() ==> entries[j].0 != entries[i].0,
    ensures
        lookup(after_inserts(cap, entries)->0, entries[i].0) == Some(entries[i].1),
    decreases entries.len(),
{
    let front = entries.drop_last();
    if i < front.len() {
        assert(entries[entries.len() - 1].0 != entries[i].0);
        assert(front[i] == entries[i]);
        assert forall|j: int| i < j < front.len() implies front[j].0 != front[i].0 by {
            assert(entries[j].0 != entries[i].0);
        }
        lemma_last_written(cap, front, i);
    }
}

/// Round trip: when a sequence of entries with no more keys than the table
/// has slots is inserted into a new table, every insertion is taken, and
/// looking up any of the keys afterwards gives the value written last for it.
pub proof fn law_round_trip<T, V>(cap: nat, entries: Seq<(T, V)>, i: int)
    requires
        key_set(entries).len() <= cap,
        0 <= i < entries.len(),
        forall|j: int| i < j < entries.len() ==> entries[j].0 != entries[i].0,
    ensures
        after_inserts(cap, entries) is Some,
        lookup(after_inserts(cap, entries)->0, entries[i].0) == Some(entries[i].1),
{
    lemma_inserts_taken(cap, entries);
    lemma_last_written(cap, entries, i);
}

/// Update: an insertion under a key that the map has is always taken, a
/// lookup of the key then gives the new value, every other key keeps what it
/// had, and the number of entries stays the same.
pub proof fn law_update<T, V>(m: Map<T, V>, cap: nat, key: T, value: V)
    requires
        m.dom().finite(),
        m.contains_key(key),
    ensures
        accepts(m, cap, key),
        lookup(m.insert(key, value), key) == Some(value),
        forall|other: T| other != key ==> lookup(m.insert(key, value), other) == lookup(m, other),
        m.insert(key, value).dom().len() == m.dom().len(),
{
    assert(m.insert(key, value).dom() =~= m.dom());
}

/// Deletion: after a key has been deleted the map does not have it, and a
/// lookup of any other key gives what it gave before.
pub proof fn law_delete_keeps_others<T, V>(m: Map<T, V>, key: T)
    ensures
        !m.remove(key).contains_key(key),
        lookup(m.remove(key), key) is None,
        forall|other: T| other != key ==> lookup(m.remove(key), other) == lookup(m, other),
{
}

/// Full table: when one key more than the table has slots is inserted into a
/// new table, all the keys being different, every insertion but the last is
/// taken and the last is refused.
pub proof fn law_full_table<T, V>(cap: nat, entries: Seq<(T, V)>)
    requires
        entries.len() == cap + 1,
        distinct_keys(entries),
    ensures
        after_inserts(cap, entries.drop_last()) is Some,
        after_inserts(cap, entries.drop_last())->0.dom().len() == cap,
        !accepts(after_inserts(cap, entries.drop_last())->0, cap, entries.last().0),
        after_inserts(cap, entries) is None,
{
    let front = entries.drop_last();
    assert(distinct_keys(front)) by {
        assert forall|i: int, j: int| 0 <= i < j < front.len() implies front[i].0 != front[j].0 by {
            assert(entries[i].0 != entries[j].0);
        }
    }
    lemma_key_set_distinct(front);
    lemma_inserts_taken(cap, front);
    if key_set(front).contains(entries.last().0) {
        let i = lemma_key_set_witness(front, entries.last().0);
        assert(entries[i].0 != entries[entries.len() - 1].0);
    }
}

/// Probe lengths: in a well-formed map the probe length stored with an entry
/// is the one recomputed from the home slot of its key and the slot it is in,
/// and no more than the bound that lookups trust.
pub proof fn law_probe_lengths<K: Key, V>(map: RobinHashMap<K, V>, i: int)
    requires
        map.wf(),
        0 <= i < map.spec_capacity(),
        map.slots()[i] is Some,
    ensures
        map.slots()[i]->0.probe_length == (i - home::<K>(
            map.slots()[i]->0.key@,
            map.spec_capacity() as int,
        )) % (map.spec_capacity() as int) + 1,
        1 <= map.slots()[i]->0.probe_length <= map.spec_max_psl(),
{
    let cap = map.spec_capacity() as int;
    lemma_home_in_range::<K>(map.slots()[i]->0.key@, cap);
    lemma_probe_distance_is_mod(home::<K>(map.slots()[i]->0.key@, cap), i, cap);
}

/// Entry count: the entries that a well-formed map counts are its occupied
/// slots, as many as the abstract map has keys and no more than the capacity.
pub proof fn law_entry_count<K: Key, V>(map: RobinHashMap<K, V>)
    requires
        map.wf(),
    ensures
        map@.dom().finite(),
        map.spec_len() == occupied(map.slots()),
        map.spec_len() == map@.dom().len(),
        map.spec_len() <= map.spec_capacity(),
{
    lemma_model_size(map.slots());
    lemma_occupied_bound(map.slots());
}

/// Reachability: every entry of a well-formed map is what a lookup of its key
/// gives.
pub proof fn law_stored_is_found<K: Key, V>(map: RobinHashMap<K, V>, i: int)
    requires
        map.wf(),
        0 <= i < map.spec_capacity(),
        map.slots()[i] is Some,
    ensures
        lookup(map@, map.slots()[i]->0.key@) == Some(map.slots()[i]->0.value),
{
    lemma_model_at(map.slots(), i);
}

/// No gaps: in a well-formed map there is no empty slot between the home slot
/// of an entry and the slot the entry is in, so a search that starts at the
/// home slot of a stored key reaches the key.
pub proof fn law_no_gaps<K: Key, V>(map: RobinHashMap<K, V>)
    requires
        map.wf(),
    ensures
        gap_free(map.slots()),
{
    lemma_gap_free(map.slots());
}

} // verus!
