//! Linear probing over a sequence of slots, as mathematics.
//!
//! A table is a sequence of slots, each empty (`None`) or holding a value.
//! A probe starts at a home slot and walks forward one slot at a time,
//! wrapping past the end, for at most as many steps as there are slots.

use vstd::prelude::*;

verus! {

/// How an insertion ended.
#[derive(Debug, Clone, Copy, PartialEq, Eq)]
pub enum InsertOutcome {
    /// The value was stored in the slot with this index.
    Stored(usize),
    /// An equal value was met on the way: nothing was stored.
    AlreadyExists,
    /// Every slot was passed and none was free: nothing was stored.
    NoSpace,
}

/// The slot that a probe from `home` visits at step `k` in a table of `n` slots.
pub open spec fn probe_slot(n: int, home: int, k: int) -> int {
    (home + k) % n
}

/// Whether a probe for `wanted` stops at a slot that holds `slot`.
///
/// A probe for `Some(item)` stops at an empty slot and at a slot that holds
/// `item`. A probe for `None` looks for room only: it stops at an empty slot.
pub open spec fn stops_at<V>(slot: Option<V>, wanted: Option<V>) -> bool {
    slot is None || slot == wanted
}

/// The first step at or after `k` at which a probe for `wanted` from `home`
/// stops, or the number of slots if it stops at none of them.
pub open spec fn probe_from<V>(slots: Seq<Option<V>>, home: int, wanted: Option<V>, k: int) -> int
    decreases slots.len() - k,
{
    if k >= slots.len() {
        slots.len() as int
    } else if stops_at(slots[probe_slot(slots.len() as int, home, k)], wanted) {
        k
    } else {
        probe_from(slots, home, wanted, k + 1)
    }
}

/// The number of slots that a probe for `wanted` from `home` passes before it
/// stops; the number of slots in the table if it never stops.
pub open spec fn probe_len<V>(slots: Seq<Option<V>>, home: int, wanted: Option<V>) -> int {
    probe_from(slots, home, wanted, 0)
}

/// The first `k` steps of a probe for `wanted` from `home` all pass: none of
/// the slots they visit stops the probe.
pub open spec fn passes<V>(slots: Seq<Option<V>>, home: int, wanted: Option<V>, k: int) -> bool {
    forall|j: int|
        0 <= j < k ==> !stops_at(
            #[trigger] slots[probe_slot(slots.len() as int, home, j)],
            wanted,
        )
}

/// The home slot of a value with hash `hash` in a table of `capacity` slots.
pub open spec fn home_slot(hash: u64, capacity: usize) -> int {
    ((hash as usize) % capacity) as int
}

/// The slot at which a probe for `wanted` from `home` stops. Meaningful only
/// where the probe does stop, that is where `probe_len` is less than the
/// number of slots.
pub open spec fn probe_end<V>(slots: Seq<Option<V>>, home: int, wanted: Option<V>) -> int {
    probe_slot(slots.len() as int, home, probe_len(slots, home, wanted))
}

/// Whether a probe for `wanted` from `home` stops at all.
pub open spec fn probe_stops<V>(slots: Seq<Option<V>>, home: int, wanted: Option<V>) -> bool {
    probe_len(slots, home, wanted) < slots.len()
}

/// How inserting `item`, whose home slot is `home`, ends: the probe for the
/// item stops at a free slot, which takes the item, or at an equal value, or
/// it does not stop.
pub open spec fn insert_outcome<V>(slots: Seq<Option<V>>, home: int, item: V) -> InsertOutcome {
    if !probe_stops(slots, home, Some(item)) {
        InsertOutcome::NoSpace
    } else if slots[probe_end(slots, home, Some(item))] is None {
        InsertOutcome::Stored(probe_end(slots, home, Some(item)) as usize)
    } else {
        InsertOutcome::AlreadyExists
    }
}

/// The slots after inserting `item`, whose home slot is `home`.
pub open spec fn after_insert<V>(slots: Seq<Option<V>>, home: int, item: V) -> Seq<Option<V>> {
    if insert_outcome(slots, home, item) is Stored {
        slots.update(probe_end(slots, home, Some(item)), Some(item))
    } else {
        slots
    }
}

/// Whether searching for `item`, whose home slot is `home`, finds it: the
/// probe for the item stops at a slot that holds it. A free slot on the way
/// ends the search, whatever lies beyond.
pub open spec fn search_finds<V>(slots: Seq<Option<V>>, home: int, item: V) -> bool {
    probe_stops(slots, home, Some(item)) && slots[probe_end(slots, home, Some(item))] is Some
}

/// The slots after deleting `item`, whose home slot is `home`: the slot at
/// which a search finds the item is emptied, and nothing else changes.
pub open spec fn after_delete<V>(slots: Seq<Option<V>>, home: int, item: V) -> Seq<Option<V>> {
    if search_finds(slots, home, item) {
        slots.update(probe_end(slots, home, Some(item)), None)
    } else {
        slots
    }
}

/// The slots after placing `item`, whose home slot is `home`, without looking
/// for an equal value: the first free slot from `home` on takes it, and where
/// there is none the item is dropped.
pub open spec fn after_fill_one<V>(slots: Seq<Option<V>>, home: int, item: V) -> Seq<Option<V>> {
    if probe_stops(slots, home, None) {
        slots.update(probe_end(slots, home, None), Some(item))
    } else {
        slots
    }
}

/// One step forward from the slot of step `k` is the slot of step `k + 1`.
pub proof fn lemma_probe_slot_step(n: int, home: int, k: int)
    requires
        n > 0,
    ensures
        probe_slot(n, home, k + 1) == (probe_slot(n, home, k) + 1) % n,
{
    vstd::arithmetic::div_mod::lemma_add_mod_noop(home + k, 1, n);
    vstd::arithmetic::div_mod::lemma_mod_twice(home + k, n);
    vstd::arithmetic::div_mod::lemma_add_mod_noop((home + k) % n, 1, n);
}

/// What `probe_from` returns: a step between `k` and the number of slots,
/// before which the probe passes every slot from step `k` on, and at which it
/// stops unless the slots have run out.
pub proof fn lemma_probe_from<V>(slots: Seq<Option<V>>, home: int, wanted: Option<V>, k: int)
    requires
        0 <= k <= slots.len(),
    ensures
        k <= probe_from(slots, home, wanted, k) <= slots.len(),
        forall|j: int|
            k <= j < probe_from(slots, home, wanted, k) ==> !stops_at(
                #[trigger] slots[probe_slot(slots.len() as int, home, j)],
                wanted,
            ),
        probe_from(slots, home, wanted, k) < slots.len() ==> stops_at(
            slots[probe_slot(slots.len() as int, home, probe_from(slots, home, wanted, k))],
            wanted,
        ),
    decreases slots.len() - k,
{
    if k < slots.len() && !stops_at(slots[probe_slot(slots.len() as int, home, k)], wanted) {
        lemma_probe_from(slots, home, wanted, k + 1);
    }
}

/// What `probe_len` is: the probe passes that many slots, and then stops
/// unless it has passed them all.
pub proof fn lemma_probe_len<V>(slots: Seq<Option<V>>, home: int, wanted: Option<V>)
    ensures
        0 <= probe_len(slots, home, wanted) <= slots.len(),
        passes(slots, home, wanted, probe_len(slots, home, wanted)),
        probe_len(slots, home, wanted) < slots.len() ==> stops_at(
            slots[probe_slot(slots.len() as int, home, probe_len(slots, home, wanted))],
            wanted,
        ),
{
    lemma_probe_from(slots, home, wanted, 0);
}

/// A step that the probe reaches without stopping, and at which it stops or
/// runs out of slots, is where `probe_from` says the probe ends.
pub proof fn lemma_probe_from_is<V>(
    slots: Seq<Option<V>>,
    home: int,
    wanted: Option<V>,
    k: int,
    r: int,
)
    requires
        0 <= k <= r <= slots.len(),
        passes(slots, home, wanted, r),
        r < slots.len() ==> stops_at(slots[probe_slot(slots.len() as int, home, r)], wanted),
    ensures
        probe_from(slots, home, wanted, k) == r,
    decreases r - k,
{
    if k < r {
        lemma_probe_from_is(slots, home, wanted, k + 1, r);
    }
}

/// The length of a probe is settled by where it first stops.
pub proof fn lemma_probe_len_is<V>(slots: Seq<Option<V>>, home: int, wanted: Option<V>, r: int)
    requires
        0 <= r <= slots.len(),
        passes(slots, home, wanted, r),
        r < slots.len() ==> stops_at(slots[probe_slot(slots.len() as int, home, r)], wanted),
    ensures
        probe_len(slots, home, wanted) == r,
{
    lemma_probe_from_is(slots, home, wanted, 0, r);
}

} // verus!
