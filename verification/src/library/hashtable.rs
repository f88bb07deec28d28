//! The table: a fixed number of slots, filled and searched by linear probing.

use crate::library::item::{item_views, slot_views, Item};
use crate::library::probe::{
    after_delete, after_fill_one, after_insert, home_slot, insert_outcome, lemma_probe_len_is,
    lemma_probe_slot_step, passes, probe_slot, search_finds, InsertOutcome,
};
use crate::library::snapshot::{decode_slots, encode_slots, loads_as, snapshot_of, CodecError};
use vstd::prelude::*;

verus! {

/// The home slot of the value whose view is `v` in a table with these slots:
/// the value's hash, cut to the width of an index, modulo the number of
/// slots.
pub open spec fn home_in<T: Item>(slots: Seq<Option<T::V>>, v: T::V) -> int {
    home_slot(T::hash_of(v), slots.len() as usize)
}

/// The slots after placing `items` one after the other, each as
/// `after_fill_one` says, in a table whose values hash as those of `T` do.
pub open spec fn after_fill<T: Item>(slots: Seq<Option<T::V>>, items: Seq<T::V>) -> Seq<
    Option<T::V>,
>
    decreases items.len(),
{
    if items.len() == 0 {
        slots
    } else {
        let before = after_fill::<T>(slots, items.drop_last());
        after_fill_one(before, home_in::<T>(before, items.last()), items.last())
    }
}

/// A table of `capacity` slots, all of them empty.
pub open spec fn empty_slots<V>(capacity: usize) -> Seq<Option<V>> {
    Seq::new(capacity as nat, |i: int| None)
}

/// A hash table of fixed capacity with open addressing and linear probing.
///
/// The table is its slots: `capacity` of them, each empty or holding one
/// value. Its view is the sequence of what the slots hold. The capacity
/// never changes, and a deleted value leaves an empty slot behind, not a
/// marker.
///
/// The table lives in memory. Its owner keeps it in a file by writing the
/// bytes that `save` gives after every call that changed the table, and by
/// handing the content of the file to `load` at the next start. The table
/// has one writer at a time: callers that share it put each call, together
/// with the write that follows it, under one lock of their own.
#[derive(Debug)]
pub struct HashTable<T> {
    data: Vec<Option<T>>,
    capacity: usize,
    file_name: String,
}

impl<T: Item> View for HashTable<T> {
    type V = Seq<Option<T::V>>;

    closed spec fn view(&self) -> Seq<Option<T::V>> {
        slot_views(self.data@)
    }
}

impl<T> HashTable<T> {
    #[verifier::type_invariant]
    spec fn well_formed(&self) -> bool {
        &&& self.capacity > 0
        &&& self.data@.len() == self.capacity
    }
}

impl<T: Item> HashTable<T> {
    /// The home slot in this table of the value whose view is `v`.
    pub open spec fn home_of(&self, v: T::V) -> int {
        home_in::<T>(self@, v)
    }

    /// The name of the file that holds the table's snapshots.
    pub closed spec fn spec_file_name(&self) -> Seq<char> {
        self.file_name@
    }

    /// Makes an empty table of `capacity` slots that keeps its snapshots in
    /// the file `file_name`: the table to start with where there is no such
    /// file yet.
    pub fn new(capacity: usize, file_name: &str) -> (table: Self)
        requires
            capacity > 0,
        ensures
            table@ == empty_slots::<T::V>(capacity),
            table.spec_file_name() == file_name@,
    {
        let mut data: Vec<Option<T>> = Vec::new();
        while data.len() < capacity
            invariant
                data@.len() <= capacity,
                forall|i: int| 0 <= i < data@.len() ==> data@[i] is None,
            decreases capacity - data@.len(),
        {
            data.push(None);
        }
        assert(slot_views(data@) =~= empty_slots::<T::V>(capacity));
        HashTable { data, capacity, file_name: file_name.to_owned() }
    }

    /// Makes the table of `capacity` slots that the file `file_name` holds:
    /// `stored` is the content of the file.
    ///
    /// The table is the one whose snapshot the content begins with. Content
    /// that does not begin with the snapshot of a table of `capacity` slots
    /// is an error: content that is cut short or does not follow the format,
    /// and the snapshot of a table of another capacity.
    pub fn load(capacity: usize, file_name: &str, stored: &[u8]) -> (r: Result<Self, CodecError>)
        requires
            capacity > 0,
        ensures
            match r {
                Ok(table) => {
                    &&& loads_as::<T>(stored@, capacity, table@)
                    &&& table.spec_file_name() == file_name@
                },
                Err(_) => forall|slots: Seq<Option<T::V>>| !#[trigger] loads_as::<T>(
                    stored@,
                    capacity,
                    slots,
                ),
            },
    {
        match decode_slots::<T>(stored, capacity) {
            Ok(data) => Ok(HashTable { data, capacity, file_name: file_name.to_owned() }),
            Err(e) => Err(e),
        }
    }

    /// The snapshot of the table: the bytes to keep in its file.
    pub fn save(&self) -> (bytes: Vec<u8>)
        ensures
            bytes@ == snapshot_of::<T>(self@),
    {
        encode_slots(&self.data)
    }

    /// The name of the file that holds the table's snapshots.
    pub fn file_name(&self) -> (name: &str)
        ensures
            name@ == self.spec_file_name(),
    {
        self.file_name.as_str()
    }

    /// The slots, in index order.
    pub fn data(&self) -> (data: &Vec<Option<T>>)
        ensures
            slot_views(data@) == self@,
    {
        &self.data
    }

    /// The number of slots.
    pub fn capacity(&self) -> (capacity: usize)
        ensures
            capacity == self@.len(),
            capacity > 0,
    {
        proof {
            use_type_invariant(self);
        }
        self.capacity
    }

    /// The home slot of `item`: where a probe for it starts.
    pub fn home_slot(&self, item: &T) -> (home: usize)
        ensures
            home == self.home_of(item@),
            home < self@.len(),
    {
        proof {
            use_type_invariant(self);
        }
        let hash: u64 = item.digest();
        (#[verifier::truncate] (hash as usize)) % self.capacity
    }

    proof fn lemma_probe_starts_at_home(&self, home: int)
        requires
            0 <= home < self@.len(),
        ensures
            probe_slot(self@.len() as int, home, 0) == home,
    {
        vstd::arithmetic::div_mod::lemma_small_mod(home as nat, self@.len());
    }

    /// Looks for `item` from its home slot on, as far as the first empty
    /// slot and not beyond it.
    pub fn search(&self, item: &T) -> (found: bool)
        ensures
            found == search_finds(self@, self.home_of(item@), item@),
    {
        proof {
            use_type_invariant(self);
        }
        let home: usize = self.home_slot(item);
        let mut position: usize = home;
        let mut steps: usize = 0;
        proof {
            self.lemma_probe_starts_at_home(home as int);
        }
        while steps < self.capacity
            invariant
                self.capacity > 0,
                self.data@.len() == self.capacity,
                home == self.home_of(item@),
                home < self.capacity,
                steps <= self.capacity,
                position == probe_slot(self.capacity as int, home as int, steps as int),
                passes(self@, home as int, Some(item@), steps as int),
            decreases self.capacity - steps,
        {
            match &self.data[position] {
                None => {
                    proof {
                        lemma_probe_len_is(self@, home as int, Some(item@), steps as int);
                    }
                    return false;
                },
                Some(existing) => {
                    if existing.same(item) {
                        proof {
                            lemma_probe_len_is(self@, home as int, Some(item@), steps as int);
                        }
                        return true;
                    }
                },
            }
            proof {
                lemma_probe_slot_step(self.capacity as int, home as int, steps as int);
            }
            position = (position + 1) % self.capacity;
            steps = steps + 1;
        }
        proof {
            lemma_probe_len_is(self@, home as int, Some(item@), steps as int);
        }
        false
    }

    /// Inserts `item` into the first free slot from its home slot on, unless
    /// an equal value is met on the way there or no slot is free. The table
    /// changes, and is to be written to its file, exactly where the item was
    /// stored.
    pub fn insert(&mut self, item: T) -> (outcome: InsertOutcome)
        ensures
            outcome == insert_outcome(old(self)@, old(self).home_of(item@), item@),
            final(self)@ == after_insert(old(self)@, old(self).home_of(item@), item@),
            outcome is Stored <==> final(self)@ != old(self)@,
            final(self).spec_file_name() == old(self).spec_file_name(),
    {
        proof {
            use_type_invariant(&*self);
        }
        let home: usize = self.home_slot(&item);
        let mut position: usize = home;
        let mut steps: usize = 0;
        proof {
            self.lemma_probe_starts_at_home(home as int);
        }
        while steps < self.capacity
            invariant
                *self == *old(self),
                self.capacity > 0,
                self.data@.len() == self.capacity,
                home == self.home_of(item@),
                home < self.capacity,
                steps <= self.capacity,
                position == probe_slot(self.capacity as int, home as int, steps as int),
                passes(self@, home as int, Some(item@), steps as int),
            decreases self.capacity - steps,
        {
            match &self.data[position] {
                None => {
                    proof {
                        lemma_probe_len_is(self@, home as int, Some(item@), steps as int);
                    }
                    let ghost stored = item@;
                    self.data[position] = Some(item);
                    assert(self@ =~= old(self)@.update(position as int, Some(stored)));
                    assert(self@[position as int] != old(self)@[position as int]);
                    return InsertOutcome::Stored(position);
                },
                Some(existing) => {
                    if existing.same(&item) {
                        proof {
                            lemma_probe_len_is(self@, home as int, Some(item@), steps as int);
                        }
                        return InsertOutcome::AlreadyExists;
                    }
                },
            }
            proof {
                lemma_probe_slot_step(self.capacity as int, home as int, steps as int);
            }
            position = (position + 1) % self.capacity;
            steps = steps + 1;
        }
        proof {
            lemma_probe_len_is(self@, home as int, Some(item@), steps as int);
        }
        InsertOutcome::NoSpace
    }

    /// Deletes `item` where a search finds it, and says whether it did: the
    /// table changes, and is to be written to its file, exactly then.
    ///
    /// The slot is emptied and nothing is moved: values that were stored
    /// beyond it on their way from their own home slots are out of reach of
    /// `search` from then on, though they are still in the table.
    pub fn delete(&mut self, item: &T) -> (removed: bool)
        ensures
            removed == search_finds(old(self)@, old(self).home_of(item@), item@),
            final(self)@ == after_delete(old(self)@, old(self).home_of(item@), item@),
            removed <==> final(self)@ != old(self)@,
            final(self).spec_file_name() == old(self).spec_file_name(),
    {
        proof {
            use_type_invariant(&*self);
        }
        let home: usize = self.home_slot(item);
        let mut position: usize = home;
        let mut steps: usize = 0;
        proof {
            self.lemma_probe_starts_at_home(home as int);
        }
        while steps < self.capacity
            invariant
                *self == *old(self),
                self.capacity > 0,
                self.data@.len() == self.capacity,
                home == self.home_of(item@),
                home < self.capacity,
                steps <= self.capacity,
                position == probe_slot(self.capacity as int, home as int, steps as int),
                passes(self@, home as int, Some(item@), steps as int),
            decreases self.capacity - steps,
        {
            match &self.data[position] {
                None => {
                    proof {
                        lemma_probe_len_is(self@, home as int, Some(item@), steps as int);
                    }
                    return false;
                },
                Some(existing) => {
                    if existing.same(item) {
                        proof {
                            lemma_probe_len_is(self@, home as int, Some(item@), steps as int);
                        }
                        self.data[position] = None;
                        assert(self@ =~= old(self)@.update(position as int, None));
                        assert(self@[position as int] != old(self)@[position as int]);
                        return true;
                    }
                },
            }
            proof {
                lemma_probe_slot_step(self.capacity as int, home as int, steps as int);
            }
            position = (position + 1) % self.capacity;
            steps = steps + 1;
        }
        proof {
            lemma_probe_len_is(self@, home as int, Some(item@), steps as int);
        }
        false
    }

    /// Places every value of `items`, in order, as `fill_one` does. The
    /// table is to be written to its file once, when all of them are placed.
    pub fn fill(&mut self, items: Vec<T>)
        ensures
            final(self)@ == after_fill::<T>(old(self)@, item_views(items@)),
            final(self).spec_file_name() == old(self).spec_file_name(),
    {
        proof {
            use_type_invariant(&*self);
        }
        let ghost views = item_views(items@);
        assert(views.take(0) =~= Seq::<T::V>::empty());
        for item in it: items.into_iter()
            invariant
                it.seq() == items@,
                views == item_views(items@),
                self@.len() == old(self)@.len(),
                self@ == after_fill::<T>(old(self)@, views.take(it.index() as int)),
                self.spec_file_name() == old(self).spec_file_name(),
        {
            assert(views.take(it.index() + 1).drop_last() =~= views.take(it.index() as int));
            assert(views.take(it.index() + 1).last() == item@);
            self.fill_one(item);
        }
        assert(views.take(views.len() as int) =~= views);
    }

    /// Places `item` in the first free slot from its home slot on, without
    /// looking for an equal value. Where no slot is free the item is dropped.
    pub fn fill_one(&mut self, item: T)
        ensures
            final(self)@ == after_fill_one(old(self)@, old(self).home_of(item@), item@),
            final(self).spec_file_name() == old(self).spec_file_name(),
    {
        proof {
            use_type_invariant(&*self);
        }
        let home: usize = self.home_slot(&item);
        let mut position: usize = home;
        let mut steps: usize = 0;
        proof {
            self.lemma_probe_starts_at_home(home as int);
        }
        while steps < self.capacity
            invariant
                *self == *old(self),
                self.capacity > 0,
                self.data@.len() == self.capacity,
                home == self.home_of(item@),
                home < self.capacity,
                steps <= self.capacity,
                position == probe_slot(self.capacity as int, home as int, steps as int),
                passes(self@, home as int, None, steps as int),
            decreases self.capacity - steps,
        {
            if self.data[position].is_none() {
                proof {
                    lemma_probe_len_is(self@, home as int, None, steps as int);
                }
                let ghost stored = item@;
                self.data[position] = Some(item);
                assert(self@ =~= old(self)@.update(position as int, Some(stored)));
                return ;
            }
            proof {
                lemma_probe_slot_step(self.capacity as int, home as int, steps as int);
            }
            position = (position + 1) % self.capacity;
            steps = steps + 1;
        }
        proof {
            lemma_probe_len_is(self@, home as int, None, steps as int);
        }
    }
}

} // verus!
