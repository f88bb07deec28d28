//! What holds of the table's operations, whatever the values and the order
//! of the calls.

use crate::library::hashtable::{empty_slots, home_in};
use crate::library::item::Item;
use crate::library::probe::{
    after_delete, after_fill_one, after_insert, insert_outcome, lemma_probe_len,
    lemma_probe_len_is, passes, probe_end, probe_len, probe_slot, probe_stops, search_finds,
    stops_at, InsertOutcome,
};
use crate::library::snapshot::{lemma_load_unique, loads_as, snapshot_of};
use vstd::prelude::*;

verus! {

/// The number of steps that a probe from `home` takes to reach slot `p`.
pub open spec fn steps_to(n: int, home: int, p: int) -> int {
    if p >= home {
        p - home
    } else {
        p - home + n
    }
}

/// The number of slots that hold a value.
pub open spec fn occupied<V>(slots: Seq<Option<V>>) -> nat
    decreases slots.len(),
{
    if slots.len() == 0 {
        0
    } else {
        occupied(slots.drop_last()) + if slots.last() is Some {
            1nat
        } else {
            0nat
        }
    }
}

/// Every stored value can be reached from its home slot: no slot between
/// its home slot and its own is empty.
pub open spec fn chains_intact<T: Item>(slots: Seq<Option<T::V>>) -> bool {
    forall|p: int|
        0 <= p < slots.len() && (#[trigger] slots[p]) is Some ==> passes(
            slots,
            home_in::<T>(slots, slots[p]->Some_0),
            None,
            steps_to(slots.len() as int, home_in::<T>(slots, slots[p]->Some_0), p),
        )
}

/// No value is held by two slots.
pub open spec fn no_value_twice<V>(slots: Seq<Option<V>>) -> bool {
    forall|p: int, q: int|
        0 <= p < q < slots.len() && (#[trigger] slots[p]) is Some ==> slots[p] != #[trigger] slots[q]
}

/// The slots after inserting `items` one at a time, in order.
pub open spec fn after_inserts<T: Item>(slots: Seq<Option<T::V>>, items: Seq<T::V>) -> Seq<
    Option<T::V>,
>
    decreases items.len(),
{
    if items.len() == 0 {
        slots
    } else {
        let before = after_inserts::<T>(slots, items.drop_last());
        after_insert(before, home_in::<T>(before, items.last()), items.last())
    }
}

/// How the insertion of `items[i]` ends, after those of the items before it.
pub open spec fn nth_outcome<T: Item>(slots: Seq<Option<T::V>>, items: Seq<T::V>, i: int) -> InsertOutcome {
    let before = after_inserts::<T>(slots, items.take(i));
    insert_outcome(before, home_in::<T>(before, items[i]), items[i])
}

/// The slots of a table of `capacity` slots once the first `i` of `items`,
/// which all have the home slot `home`, have been inserted into it empty:
/// they stand one after the other from `home` on.
pub open spec fn one_chain<V>(capacity: usize, home: int, items: Seq<V>, i: int) -> Seq<Option<V>> {
    Seq::new(
        capacity as nat,
        |p: int|
            if steps_to(capacity as int, home, p) < i {
                Some(items[steps_to(capacity as int, home, p)])
            } else {
                None
            },
    )
}

/// A probe reaches every slot, each after a number of steps of its own.
pub proof fn lemma_steps_to(n: int, home: int, p: int)
    requires
        0 <= home < n,
        0 <= p < n,
    ensures
        0 <= steps_to(n, home, p) < n,
        probe_slot(n, home, steps_to(n, home, p)) == p,
{
    let k = steps_to(n, home, p);
    if p >= home {
        vstd::arithmetic::div_mod::lemma_small_mod(p as nat, n as nat);
    } else {
        assert((p + n) % n == p) by (nonlinear_arith)
            requires
                0 <= p < n,
        ;
    }
}

/// The steps to the slot that a probe visits at step `k` are `k`.
pub proof fn lemma_steps_to_probe_slot(n: int, home: int, k: int)
    requires
        0 <= home < n,
        0 <= k < n,
    ensures
        0 <= probe_slot(n, home, k) < n,
        steps_to(n, home, probe_slot(n, home, k)) == k,
{
    if home + k < n {
        vstd::arithmetic::div_mod::lemma_small_mod((home + k) as nat, n as nat);
    } else {
        assert((home + k) % n == home + k - n) by (nonlinear_arith)
            requires
                n <= home + k < 2 * n,
        ;
    }
}

/// Where fewer slots hold a value than there are slots, a slot is empty.
pub proof fn lemma_free_slot_exists<V>(slots: Seq<Option<V>>) -> (p: int)
    requires
        occupied(slots) < slots.len(),
    ensures
        0 <= p < slots.len(),
        slots[p] is None,
    decreases slots.len(),
{
    if slots.last() is None {
        slots.len() - 1
    } else {
        lemma_free_slot_exists(slots.drop_last())
    }
}

/// Storing a value in an empty slot makes one more slot hold a value.
pub proof fn lemma_occupied_store<V>(slots: Seq<Option<V>>, p: int, v: V)
    requires
        0 <= p < slots.len(),
        slots[p] is None,
    ensures
        occupied(slots.update(p, Some(v))) == occupied(slots) + 1,
    decreases slots.len(),
{
    let after = slots.update(p, Some(v));
    if p == slots.len() - 1 {
        assert(after.drop_last() =~= slots.drop_last());
    } else {
        lemma_occupied_store(slots.drop_last(), p, v);
        assert(after.drop_last() =~= slots.drop_last().update(p, Some(v)));
    }
}

/// A table with fewer values than slots has an empty slot, and a probe for
/// room stops, wherever it starts.
pub proof fn lemma_room_is_found<V>(slots: Seq<Option<V>>, home: int)
    requires
        0 <= home < slots.len(),
        occupied(slots) < slots.len(),
    ensures
        probe_stops(slots, home, None::<V>),
{
    let p = lemma_free_slot_exists(slots);
    let n = slots.len() as int;
    lemma_steps_to(n, home, p);
    lemma_probe_len(slots, home, None::<V>);
    let k = steps_to(n, home, p);
    if probe_len(slots, home, None::<V>) > k {
        assert(!stops_at(slots[probe_slot(n, home, k)], None::<V>));
    }
}

/// What a stored outcome says: the probe for the item passes slots that hold
/// other values and stops at an empty slot, which takes the item.
pub proof fn lemma_insert_stored<V>(slots: Seq<Option<V>>, home: int, item: V)
    requires
        insert_outcome(slots, home, item) is Stored,
    ensures
        0 <= probe_len(slots, home, Some(item)) < slots.len(),
        passes(slots, home, Some(item), probe_len(slots, home, Some(item))),
        0 <= probe_end(slots, home, Some(item)) < slots.len(),
        slots[probe_end(slots, home, Some(item))] is None,
        insert_outcome(slots, home, item) == InsertOutcome::Stored(
            probe_end(slots, home, Some(item)) as usize,
        ),
        after_insert(slots, home, item) == slots.update(
            probe_end(slots, home, Some(item)),
            Some(item),
        ),
{
    lemma_probe_len(slots, home, Some(item));
}

/// After a value was stored, inserting it again meets it and changes nothing.
pub proof fn lemma_insert_again<V>(slots: Seq<Option<V>>, home: int, item: V)
    requires
        0 <= home < slots.len(),
        insert_outcome(slots, home, item) is Stored,
    ensures
        insert_outcome(after_insert(slots, home, item), home, item)
            == InsertOutcome::AlreadyExists,
        after_insert(after_insert(slots, home, item), home, item) == after_insert(
            slots,
            home,
            item,
        ),
{
    lemma_insert_stored(slots, home, item);
    let n = slots.len() as int;
    let k = probe_len(slots, home, Some(item));
    let after = after_insert(slots, home, item);
    lemma_steps_to_probe_slot(n, home, k);
    assert forall|j: int| 0 <= j < k implies !stops_at(
        #[trigger] after[probe_slot(n, home, j)],
        Some(item),
    ) by {
        lemma_steps_to_probe_slot(n, home, j);
        assert(!stops_at(slots[probe_slot(n, home, j)], Some(item)));
    }
    lemma_probe_len_is(after, home, Some(item), k);
}

/// A value that the table does not hold is stored where a slot is free.
pub proof fn lemma_new_value_is_stored<V>(slots: Seq<Option<V>>, home: int, item: V)
    requires
        0 <= home < slots.len(),
        !slots.contains(Some(item)),
        occupied(slots) < slots.len(),
    ensures
        insert_outcome(slots, home, item) is Stored,
{
    let n = slots.len() as int;
    lemma_room_is_found(slots, home);
    lemma_probe_len(slots, home, None::<V>);
    lemma_probe_len(slots, home, Some(item));
    let free = probe_len(slots, home, None::<V>);
    let k = probe_len(slots, home, Some(item));
    if k > free {
        assert(!stops_at(slots[probe_slot(n, home, free)], Some(item)));
    }
    vstd::arithmetic::div_mod::lemma_mod_bound(home + k, n);
    assert(slots[probe_slot(n, home, k)] != Some(item));
}

/// Storing a value leaves every stored value within reach of its home slot.
pub proof fn lemma_insert_keeps_chains<T: Item>(slots: Seq<Option<T::V>>, item: T::V)
    requires
        0 < slots.len() <= usize::MAX,
        chains_intact::<T>(slots),
        insert_outcome(slots, home_in::<T>(slots, item), item) is Stored,
    ensures
        chains_intact::<T>(after_insert(slots, home_in::<T>(slots, item), item)),
{
    let n = slots.len() as int;
    let home = home_in::<T>(slots, item);
    lemma_insert_stored(slots, home, item);
    let k = probe_len(slots, home, Some(item));
    let end = probe_end(slots, home, Some(item));
    let after = after_insert(slots, home, item);
    lemma_steps_to_probe_slot(n, home, k);
    assert forall|p: int| 0 <= p < after.len() && (#[trigger] after[p]) is Some implies passes(
        after,
        home_in::<T>(after, after[p]->Some_0),
        None,
        steps_to(n, home_in::<T>(after, after[p]->Some_0), p),
    ) by {
        let v = after[p]->Some_0;
        let h = home_in::<T>(after, v);
        let m = steps_to(n, h, p);
        assert forall|j: int| 0 <= j < m implies !stops_at(
            #[trigger] after[probe_slot(n, h, j)],
            None,
        ) by {
            vstd::arithmetic::div_mod::lemma_mod_bound(h + j, n);
            if p == end {
                assert(!stops_at(slots[probe_slot(n, home, j)], Some(item)));
            } else {
                assert(slots[p] is Some);
                assert(!stops_at(slots[probe_slot(n, h, j)], None));
            }
        }
    }
}

/// Where every stored value is within reach of its home slot, a search finds
/// each value that the table holds.
pub proof fn lemma_held_is_found<T: Item>(slots: Seq<Option<T::V>>, p: int)
    requires
        0 < slots.len() <= usize::MAX,
        chains_intact::<T>(slots),
        0 <= p < slots.len(),
        slots[p] is Some,
    ensures
        search_finds(slots, home_in::<T>(slots, slots[p]->Some_0), slots[p]->Some_0),
{
    let n = slots.len() as int;
    let v = slots[p]->Some_0;
    let h = home_in::<T>(slots, v);
    let m = steps_to(n, h, p);
    lemma_steps_to(n, h, p);
    lemma_probe_len(slots, h, Some(v));
    let r = probe_len(slots, h, Some(v));
    if r > m {
        assert(!stops_at(slots[probe_slot(n, h, m)], Some(v)));
    }
    if r < m {
        assert(!stops_at(slots[probe_slot(n, h, r)], None));
    }
}

/// Inserting distinct values into an empty table with room for them all:
/// what holds after the first `i` of them.
proof fn lemma_distinct_inserts<T: Item>(capacity: usize, items: Seq<T::V>, i: int)
    requires
        capacity > 0,
        items.len() <= capacity,
        items.no_duplicates(),
        0 <= i <= items.len(),
    ensures
        ({
            let start = empty_slots::<T::V>(capacity);
            let slots = after_inserts::<T>(start, items.take(i));
            &&& slots.len() == capacity
            &&& chains_intact::<T>(slots)
            &&& occupied(slots) == i
            &&& forall|p: int|
                0 <= p < slots.len() && (#[trigger] slots[p]) is Some ==> items.take(i).contains(
                    slots[p]->Some_0,
                )
            &&& forall|j: int|
                0 <= j < i ==> {
                    &&& (#[trigger] nth_outcome::<T>(start, items, j)) matches InsertOutcome::Stored(q)
                    &&& q < capacity
                    &&& slots[q as int] == Some(items[j])
                }
        }),
    decreases i,
{
    let start = empty_slots::<T::V>(capacity);
    let slots = after_inserts::<T>(start, items.take(i));
    if i == 0 {
        assert(items.take(0) =~= Seq::<T::V>::empty());
        lemma_empty_is_empty::<T::V>(capacity);
    } else {
        let item = items[i - 1];
        let prior = items.take(i - 1);
        let before = after_inserts::<T>(start, prior);
        let home = home_in::<T>(start, item);
        lemma_distinct_inserts::<T>(capacity, items, i - 1);
        assert(items.take(i).drop_last() =~= items.take(i - 1));
        assert(items.take(i).last() == item);
        assert(slots == after_insert(before, home, item));
        assert(home == home_in::<T>(before, item));
        if before.contains(Some(item)) {
            let p = choose|p: int| 0 <= p < before.len() && before[p] == Some(item);
            assert(before[p] is Some);
            let j = choose|j: int| 0 <= j < prior.len() && prior[j] == item;
            assert(items[j] == items[i - 1]);
        }
        lemma_new_value_is_stored(before, home, item);
        lemma_insert_stored(before, home, item);
        lemma_insert_keeps_chains::<T>(before, item);
        let end = probe_end(before, home, Some(item));
        lemma_occupied_store(before, end, item);
        assert forall|p: int| 0 <= p < slots.len() && (#[trigger] slots[p]) is Some implies items.take(
            i,
        ).contains(slots[p]->Some_0) by {
            if p == end {
                assert(items.take(i)[i - 1] == item);
            } else {
                assert(before[p] is Some);
                let j = choose|j: int| 0 <= j < prior.len() && prior[j] == before[p]->Some_0;
                assert(items.take(i)[j] == before[p]->Some_0);
            }
        }
        assert forall|j: int| 0 <= j < i implies {
            &&& (#[trigger] nth_outcome::<T>(start, items, j)) matches InsertOutcome::Stored(q)
            &&& q < capacity
            &&& slots[q as int] == Some(items[j])
        } by {
            if j < i - 1 {
                let q = nth_outcome::<T>(start, items, j)->Stored_0;
                assert(before[q as int] is Some);
            }
        }
    }
}

/// An empty table holds nothing.
pub proof fn lemma_empty_is_empty<V>(capacity: usize)
    ensures
        occupied(empty_slots::<V>(capacity)) == 0,
    decreases capacity,
{
    if capacity > 0 {
        lemma_empty_is_empty::<V>((capacity - 1) as usize);
        assert(empty_slots::<V>(capacity).drop_last() =~= empty_slots::<V>((capacity - 1) as usize));
    }
}

/// Inserting distinct values that share one home slot into an empty table:
/// what holds after the first `i` of them.
proof fn lemma_one_chain<T: Item>(capacity: usize, items: Seq<T::V>, home: int, i: int)
    requires
        capacity > 0,
        items.len() <= capacity,
        items.no_duplicates(),
        0 <= home < capacity,
        forall|j: int|
            0 <= j < items.len() ==> home_in::<T>(empty_slots::<T::V>(capacity), #[trigger] items[j])
                == home,
        0 <= i <= items.len(),
    ensures
        after_inserts::<T>(empty_slots::<T::V>(capacity), items.take(i)) == one_chain(
            capacity,
            home,
            items,
            i,
        ),
        forall|j: int|
            0 <= j < i ==> (#[trigger] nth_outcome::<T>(empty_slots::<T::V>(capacity), items, j))
                == InsertOutcome::Stored(probe_slot(capacity as int, home, j) as usize),
    decreases i,
{
    let n = capacity as int;
    let start = empty_slots::<T::V>(capacity);
    if i == 0 {
        assert(items.take(0) =~= Seq::<T::V>::empty());
        assert(start =~= one_chain(capacity, home, items, 0));
    } else {
        let item = items[i - 1];
        let prior = items.take(i - 1);
        let before = one_chain(capacity, home, items, i - 1);
        lemma_one_chain::<T>(capacity, items, home, i - 1);
        assert(items.take(i).drop_last() =~= prior);
        assert(items.take(i).last() == item);
        assert forall|j: int| 0 <= j < i - 1 implies !stops_at(
            #[trigger] before[probe_slot(n, home, j)],
            Some(item),
        ) by {
            lemma_steps_to_probe_slot(n, home, j);
        }
        lemma_steps_to_probe_slot(n, home, i - 1);
        lemma_probe_len_is(before, home, Some(item), i - 1);
        let end = probe_slot(n, home, i - 1);
        assert(before.update(end, Some(item)) =~= one_chain(capacity, home, items, i)) by {
            assert forall|p: int| 0 <= p < n implies before.update(end, Some(item))[p]
                == one_chain(capacity, home, items, i)[p] by {
                lemma_steps_to(n, home, p);
            }
        }
    }
}

/// An empty table holds no value twice, and every value it holds is within
/// reach of its home slot.
pub proof fn law_empty_table_is_sound<T: Item>(capacity: usize)
    ensures
        chains_intact::<T>(empty_slots::<T::V>(capacity)),
        no_value_twice(empty_slots::<T::V>(capacity)),
        occupied(empty_slots::<T::V>(capacity)) == 0,
{
    lemma_empty_is_empty::<T::V>(capacity);
}

/// In a table where every stored value is within reach of its home slot, a
/// search finds a value exactly when the table holds it. An empty table is
/// such a table, and insertions and fillings keep it one; a deletion need
/// not.
pub proof fn law_search_finds_what_is_held<T: Item>(slots: Seq<Option<T::V>>, item: T::V)
    requires
        0 < slots.len() <= usize::MAX,
        chains_intact::<T>(slots),
    ensures
        search_finds(slots, home_in::<T>(slots, item), item) <==> slots.contains(Some(item)),
{
    let n = slots.len() as int;
    let home = home_in::<T>(slots, item);
    if slots.contains(Some(item)) {
        let p = choose|p: int| 0 <= p < slots.len() && slots[p] == Some(item);
        lemma_held_is_found::<T>(slots, p);
    }
    if search_finds(slots, home, item) {
        lemma_probe_len(slots, home, Some(item));
        vstd::arithmetic::div_mod::lemma_mod_bound(home + probe_len(slots, home, Some(item)), n);
        assert(slots[probe_end(slots, home, Some(item))] == Some(item));
    }
}

/// An insertion into a table that holds no value twice, and every value
/// within reach of its home slot, leaves such a table.
pub proof fn law_insert_keeps_the_table_sound<T: Item>(slots: Seq<Option<T::V>>, item: T::V)
    requires
        0 < slots.len() <= usize::MAX,
        chains_intact::<T>(slots),
        no_value_twice(slots),
    ensures
        chains_intact::<T>(after_insert(slots, home_in::<T>(slots, item), item)),
        no_value_twice(after_insert(slots, home_in::<T>(slots, item), item)),
{
    let home = home_in::<T>(slots, item);
    if insert_outcome(slots, home, item) is Stored {
        lemma_insert_stored(slots, home, item);
        lemma_insert_keeps_chains::<T>(slots, item);
        law_search_finds_what_is_held::<T>(slots, item);
        let after = after_insert(slots, home, item);
        assert forall|p: int, q: int|
            0 <= p < q < after.len() && (#[trigger] after[p]) is Some implies after[p]
            != #[trigger] after[q] by {
            if after[p] == after[q] {
                let end = probe_end(slots, home, Some(item));
                if p == end {
                    assert(slots[q] == Some(item));
                } else if q == end {
                    assert(slots[p] == Some(item));
                } else {
                    assert(slots[p] != slots[q]);
                }
            }
        }
    }
}

/// A deletion from a table that holds no value twice leaves such a table.
/// It may leave values out of reach of their home slots.
pub proof fn law_delete_keeps_values_apart<V>(slots: Seq<Option<V>>, home: int, item: V)
    requires
        0 <= home < slots.len(),
        no_value_twice(slots),
    ensures
        no_value_twice(after_delete(slots, home, item)),
{
    let after = after_delete(slots, home, item);
    if search_finds(slots, home, item) {
        lemma_probe_len(slots, home, Some(item));
        vstd::arithmetic::div_mod::lemma_mod_bound(
            home + probe_len(slots, home, Some(item)),
            slots.len() as int,
        );
        assert forall|p: int, q: int|
            0 <= p < q < after.len() && (#[trigger] after[p]) is Some implies after[p]
            != #[trigger] after[q] by {
            assert(slots[p] is Some);
            assert(slots[p] != slots[q]);
        }
    }
}

/// A filling leaves every stored value within reach of its home slot. It
/// does not look for equal values, and may store a value twice.
pub proof fn law_fill_one_keeps_chains<T: Item>(slots: Seq<Option<T::V>>, item: T::V)
    requires
        0 < slots.len() <= usize::MAX,
        chains_intact::<T>(slots),
    ensures
        chains_intact::<T>(after_fill_one(slots, home_in::<T>(slots, item), item)),
{
    let n = slots.len() as int;
    let home = home_in::<T>(slots, item);
    let after = after_fill_one(slots, home, item);
    if probe_stops(slots, home, None::<T::V>) {
        lemma_probe_len(slots, home, None::<T::V>);
        let k = probe_len(slots, home, None::<T::V>);
        let end = probe_end(slots, home, None::<T::V>);
        lemma_steps_to_probe_slot(n, home, k);
        assert forall|p: int| 0 <= p < after.len() && (#[trigger] after[p]) is Some implies passes(
            after,
            home_in::<T>(after, after[p]->Some_0),
            None,
            steps_to(n, home_in::<T>(after, after[p]->Some_0), p),
        ) by {
            let v = after[p]->Some_0;
            let h = home_in::<T>(after, v);
            let m = steps_to(n, h, p);
            assert forall|j: int| 0 <= j < m implies !stops_at(
                #[trigger] after[probe_slot(n, h, j)],
                None,
            ) by {
                vstd::arithmetic::div_mod::lemma_mod_bound(h + j, n);
                if p == end {
                    assert(!stops_at(slots[probe_slot(n, home, j)], None::<T::V>));
                } else {
                    assert(slots[p] is Some);
                    assert(!stops_at(slots[probe_slot(n, h, j)], None));
                }
            }
        }
    }
}

/// Distinct values, inserted one at a time into an empty table that has a
/// slot for each of them, are all stored, each in a slot of its own, and a
/// search afterwards finds every one of them. A table with twice as many
/// slots as values is such a table.
pub proof fn law_distinct_inserts_are_found<T: Item>(capacity: usize, items: Seq<T::V>)
    requires
        capacity > 0,
        items.len() <= capacity,
        items.no_duplicates(),
    ensures
        forall|i: int|
            0 <= i < items.len() ==> (#[trigger] nth_outcome::<T>(
                empty_slots::<T::V>(capacity),
                items,
                i,
            )) is Stored,
        forall|i: int, j: int|
            0 <= i < j < items.len() ==> (#[trigger] nth_outcome::<T>(
                empty_slots::<T::V>(capacity),
                items,
                i,
            )) != (#[trigger] nth_outcome::<T>(empty_slots::<T::V>(capacity), items, j)),
        forall|i: int|
            0 <= i < items.len() ==> search_finds(
                after_inserts::<T>(empty_slots::<T::V>(capacity), items),
                home_in::<T>(
                    after_inserts::<T>(empty_slots::<T::V>(capacity), items),
                    #[trigger] items[i],
                ),
                items[i],
            ),
{
    let start = empty_slots::<T::V>(capacity);
    let slots = after_inserts::<T>(start, items);
    lemma_distinct_inserts::<T>(capacity, items, items.len() as int);
    assert(items.take(items.len() as int) =~= items);
    assert forall|i: int, j: int| 0 <= i < j < items.len() implies (#[trigger] nth_outcome::<T>(
        start,
        items,
        i,
    )) != (#[trigger] nth_outcome::<T>(start, items, j)) by {
        let qi = nth_outcome::<T>(start, items, i)->Stored_0;
        let qj = nth_outcome::<T>(start, items, j)->Stored_0;
        assert(slots[qi as int] == Some(items[i]));
        assert(slots[qj as int] == Some(items[j]));
    }
    assert forall|i: int| 0 <= i < items.len() implies search_finds(
        slots,
        home_in::<T>(slots, #[trigger] items[i]),
        items[i],
    ) by {
        let q = nth_outcome::<T>(start, items, i)->Stored_0;
        assert(slots[q as int] == Some(items[i]));
        lemma_held_is_found::<T>(slots, q as int);
    }
}

/// A value that a table with a free slot does not hold is stored by the
/// first insertion and met by the second, which leaves as many slots
/// holding a value as the first did.
pub proof fn law_second_insert_is_refused<T: Item>(slots: Seq<Option<T::V>>, item: T::V)
    requires
        0 < slots.len() <= usize::MAX,
        !slots.contains(Some(item)),
        occupied(slots) < slots.len(),
    ensures
        insert_outcome(slots, home_in::<T>(slots, item), item) is Stored,
        ({
            let once = after_insert(slots, home_in::<T>(slots, item), item);
            let twice = after_insert(once, home_in::<T>(once, item), item);
            &&& insert_outcome(once, home_in::<T>(once, item), item)
                == InsertOutcome::AlreadyExists
            &&& twice == once
            &&& occupied(once) == occupied(slots) + 1
            &&& occupied(twice) == occupied(once)
        }),
{
    let home = home_in::<T>(slots, item);
    lemma_new_value_is_stored(slots, home, item);
    lemma_insert_stored(slots, home, item);
    lemma_insert_again(slots, home, item);
    lemma_occupied_store(slots, probe_end(slots, home, Some(item)), item);
}

/// As many distinct values as the table has slots, all with one home slot,
/// inserted one at a time into the empty table, are all stored, one after
/// the other from the home slot on. The table is then full: whatever is
/// inserted next is not stored. A value that the table holds is met; any
/// other finds no space, whatever its own home slot.
pub proof fn law_one_chain_fills_the_table<T: Item>(
    capacity: usize,
    items: Seq<T::V>,
    home: int,
    next: T::V,
)
    requires
        capacity > 0,
        items.len() == capacity,
        items.no_duplicates(),
        forall|j: int|
            0 <= j < items.len() ==> home_in::<T>(empty_slots::<T::V>(capacity), #[trigger] items[j])
                == home,
    ensures
        forall|j: int|
            0 <= j < items.len() ==> (#[trigger] nth_outcome::<T>(
                empty_slots::<T::V>(capacity),
                items,
                j,
            )) == InsertOutcome::Stored(probe_slot(capacity as int, home, j) as usize),
        ({
            let full = after_inserts::<T>(empty_slots::<T::V>(capacity), items);
            &&& insert_outcome(full, home_in::<T>(full, next), next) == if items.contains(next) {
                InsertOutcome::AlreadyExists
            } else {
                InsertOutcome::NoSpace
            }
            &&& after_insert(full, home_in::<T>(full, next), next) == full
        }),
{
    let n = capacity as int;
    let start = empty_slots::<T::V>(capacity);
    assert(home == home_in::<T>(start, items[0]));
    lemma_one_chain::<T>(capacity, items, home, n);
    assert(items.take(n) =~= items);
    let full = after_inserts::<T>(start, items);
    let from = home_in::<T>(full, next);
    lemma_probe_len(full, from, Some(next));
    let r = probe_len(full, from, Some(next));
    assert forall|p: int| 0 <= p < n implies (#[trigger] full[p]) is Some && items.contains(
        full[p]->Some_0,
    ) by {
        lemma_steps_to(n, home, p);
    }
    if items.contains(next) {
        let m = choose|m: int| 0 <= m < items.len() && items[m] == next;
        let q = probe_slot(n, home, m);
        lemma_steps_to_probe_slot(n, home, m);
        lemma_steps_to(n, from, q);
        if r > steps_to(n, from, q) {
            assert(!stops_at(full[probe_slot(n, from, steps_to(n, from, q))], Some(next)));
        }
        vstd::arithmetic::div_mod::lemma_mod_bound(from + r, n);
        assert(full[probe_slot(n, from, r)] is Some);
    } else {
        if r < n {
            vstd::arithmetic::div_mod::lemma_mod_bound(from + r, n);
            assert(full[probe_slot(n, from, r)] is Some);
            assert(items.contains(full[probe_slot(n, from, r)]->Some_0));
        }
    }
}

/// A deletion can hide a value. Where two values share a home slot and are
/// inserted one after the other into an empty table of two slots or more,
/// the second is stored one slot past the first. Once the first is deleted,
/// a search for the second ends at the emptied home slot and does not find
/// it, though the table still holds it.
pub proof fn law_deletion_can_hide_a_value<T: Item>(capacity: usize, first: T::V, second: T::V)
    requires
        capacity >= 2,
        first != second,
        home_in::<T>(empty_slots::<T::V>(capacity), first) == home_in::<T>(
            empty_slots::<T::V>(capacity),
            second,
        ),
    ensures
        ({
            let both = after_inserts::<T>(empty_slots::<T::V>(capacity), seq![first, second]);
            let left = after_delete(both, home_in::<T>(both, first), first);
            &&& search_finds(both, home_in::<T>(both, second), second)
            &&& left.contains(Some(second))
            &&& !search_finds(left, home_in::<T>(left, second), second)
        }),
{
    let n = capacity as int;
    let start = empty_slots::<T::V>(capacity);
    let items = seq![first, second];
    let home = home_in::<T>(start, first);
    assert(items[0] == first && items[1] == second);
    lemma_one_chain::<T>(capacity, items, home, 2);
    assert(items.take(2) =~= items);
    let both = after_inserts::<T>(start, items);
    lemma_steps_to_probe_slot(n, home, 0);
    lemma_steps_to_probe_slot(n, home, 1);
    assert(both[probe_slot(n, home, 0)] == Some(first));
    assert(both[probe_slot(n, home, 1)] == Some(second));
    lemma_probe_len_is(both, home, Some(first), 0);
    assert(!stops_at(both[probe_slot(n, home, 0)], Some(second)));
    lemma_probe_len_is(both, home, Some(second), 1);
    let left = after_delete(both, home, first);
    assert(left[probe_slot(n, home, 1)] == Some(second));
    lemma_probe_len_is(left, home, Some(second), 0);
}

/// A snapshot loads, and only as the table it was made of: a table made
/// from its own snapshot has the same slots, and so answers every search as
/// the table did, whatever insertions and deletions the table had seen.
pub proof fn law_snapshot_round_trip<T: Item>(
    capacity: usize,
    slots: Seq<Option<T::V>>,
    loaded: Seq<Option<T::V>>,
    item: T::V,
)
    requires
        slots.len() == capacity,
        snapshot_of::<T>(slots).len() <= usize::MAX,
        loads_as::<T>(snapshot_of::<T>(slots), capacity, loaded),
    ensures
        loads_as::<T>(snapshot_of::<T>(slots), capacity, slots),
        loaded == slots,
        search_finds(loaded, home_in::<T>(loaded, item), item) == search_finds(
            slots,
            home_in::<T>(slots, item),
            item,
        ),
{
    lemma_load_unique::<T>(snapshot_of::<T>(slots), capacity, slots, loaded);
}

} // verus!
