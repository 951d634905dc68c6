//! Arithmetic on the slots of a circular table.

use vstd::arithmetic::div_mod::{lemma_fundamental_div_mod_converse, lemma_mod_bound, lemma_small_mod};
use vstd::prelude::*;

verus! {

/// The slot after `i` in a table of `cap` slots, wrapping at the end.
pub open spec fn next_slot(i: int, cap: int) -> int {
    if i + 1 == cap {
        0
    } else {
        i + 1
    }
}

/// The slot before `i` in a table of `cap` slots, wrapping at the start.
pub open spec fn prev_slot(i: int, cap: int) -> int {
    if i == 0 {
        cap - 1
    } else {
        i - 1
    }
}

/// The number of forward steps that lead from slot `from` to slot `to`.
pub open spec fn probe_distance(from: int, to: int, cap: int) -> int {
    if to >= from {
        to - from
    } else {
        to - from + cap
    }
}

/// The slot reached from `from` after `steps` forward steps, for `steps < cap`.
pub open spec fn slot_after(from: int, steps: int, cap: int) -> int {
    if from + steps < cap {
        from + steps
    } else {
        from + steps - cap
    }
}

/// The forward distance is the difference of the two slots modulo the capacity.
pub proof fn lemma_probe_distance_is_mod(from: int, to: int, cap: int)
    requires
        0 <= from < cap,
        0 <= to < cap,
    ensures
        probe_distance(from, to, cap) == (to - from) % cap,
{
    let d = probe_distance(from, to, cap);
    if to >= from {
        lemma_fundamental_div_mod_converse(to - from, cap, 0, d);
    } else {
        lemma_fundamental_div_mod_converse(to - from, cap, -1, d);
    }
}

/// Computes the slot after `i`.
pub fn step(i: usize, cap: usize) -> (n: usize)
    requires
        i < cap,
    ensures
        n == next_slot(i as int, cap as int),
        n < cap,
{
    proof {
        if i + 1 < cap {
            lemma_small_mod((i + 1) as nat, cap as nat);
        } else {
            lemma_fundamental_div_mod_converse(i + 1, cap as int, 1, 0);
        }
    }
    (i + 1) % cap
}

/// Reduces a digest to a slot of a table of `cap` slots.
pub fn reduce(digest: u64, cap: usize) -> (i: usize)
    requires
        cap > 0,
    ensures
        i == (digest as int) % (cap as int),
        i < cap,
{
    proof {
        lemma_mod_bound(digest as int, cap as int);
    }
    (digest % (cap as u64)) as usize
}

} // verus!
