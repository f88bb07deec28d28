//! Snapshots: the whole of a table's slots as bytes, and back.
//!
//! A snapshot is the number of slots as eight bytes, least significant
//! first, and then the slots in index order. An empty slot is the byte 0. A
//! slot that holds a value is the byte 1 and then the value's own encoding.

use crate::library::item::{slot_views, Item};
use vstd::bytes::{
    lemma_auto_spec_u64_to_from_le_bytes, spec_u64_to_le_bytes, u64_from_le_bytes,
    u64_to_le_bytes,
};
use vstd::prelude::*;
use vstd::slice::slice_subrange;

verus! {

/// Stored bytes are not the snapshot of a table of the capacity asked for:
/// they are cut short, do not follow the format, or hold another number of
/// slots.
#[derive(Debug, Clone, Copy, PartialEq, Eq)]
pub struct CodecError;

/// The bytes of one slot.
pub open spec fn slot_encoding<T: Item>(slot: Option<T::V>) -> Seq<u8> {
    match slot {
        None => seq![0u8],
        Some(v) => seq![1u8] + T::encoding_of(v),
    }
}

/// The bytes of a run of slots: those of each slot, in order.
pub open spec fn slots_encoding<T: Item>(slots: Seq<Option<T::V>>) -> Seq<u8>
    decreases slots.len(),
{
    if slots.len() == 0 {
        Seq::empty()
    } else {
        slots_encoding::<T>(slots.drop_last()) + slot_encoding::<T>(slots.last())
    }
}

/// The snapshot of a table with these slots.
pub open spec fn snapshot_of<T: Item>(slots: Seq<Option<T::V>>) -> Seq<u8> {
    spec_u64_to_le_bytes(slots.len() as u64) + slots_encoding::<T>(slots)
}

/// `bytes` begin with the snapshot of a table of `capacity` slots that hold
/// `slots`. What follows the snapshot does not count.
pub open spec fn loads_as<T: Item>(bytes: Seq<u8>, capacity: usize, slots: Seq<Option<T::V>>) -> bool {
    slots.len() == capacity && snapshot_of::<T>(slots).is_prefix_of(bytes)
}

/// The bytes of a run of slots with one more slot behind it.
pub proof fn lemma_slots_encoding_push<T: Item>(slots: Seq<Option<T::V>>, slot: Option<T::V>)
    ensures
        slots_encoding::<T>(slots.push(slot)) == slots_encoding::<T>(slots) + slot_encoding::<T>(
            slot,
        ),
{
    assert(slots.push(slot).drop_last() =~= slots);
}

/// The bytes of the first `i` slots begin the bytes of all of them, and so do
/// the bytes of the first `i` slots with those of slot `i` behind them.
pub proof fn lemma_slots_encoding_take<T: Item>(slots: Seq<Option<T::V>>, i: int)
    requires
        0 <= i <= slots.len(),
    ensures
        slots_encoding::<T>(slots.take(i)).is_prefix_of(slots_encoding::<T>(slots)),
        i < slots.len() ==> (slots_encoding::<T>(slots.take(i)) + slot_encoding::<T>(
            slots[i],
        )).is_prefix_of(slots_encoding::<T>(slots)),
    decreases slots.len(),
{
    if i == slots.len() {
        assert(slots.take(i) =~= slots);
    } else {
        let rest = slots.drop_last();
        if i == slots.len() - 1 {
            assert(slots.take(i) =~= rest);
        } else {
            lemma_slots_encoding_take::<T>(rest, i);
            assert(rest.take(i) =~= slots.take(i));
        }
    }
}

/// Two slots whose bytes begin the same bytes are the same slot.
pub proof fn lemma_slot_prefix_free<T: Item>(a: Option<T::V>, b: Option<T::V>, bytes: Seq<u8>)
    requires
        bytes.len() <= usize::MAX,
        slot_encoding::<T>(a).is_prefix_of(bytes),
        slot_encoding::<T>(b).is_prefix_of(bytes),
    ensures
        a == b,
{
    let ea = slot_encoding::<T>(a);
    let eb = slot_encoding::<T>(b);
    assert(ea[0] == bytes[0]);
    assert(eb[0] == bytes[0]);
    match (a, b) {
        (Some(va), Some(vb)) => {
            let ia = T::encoding_of(va);
            let ib = T::encoding_of(vb);
            assert(ia =~= bytes.subrange(1, 1 + ia.len() as int)) by {
                assert forall|k: int| 0 <= k < ia.len() implies ia[k] == bytes[1 + k] by {
                    assert(ea[1 + k] == ia[k]);
                }
            }
            assert(ib =~= bytes.subrange(1, 1 + ib.len() as int)) by {
                assert forall|k: int| 0 <= k < ib.len() implies ib[k] == bytes[1 + k] by {
                    assert(eb[1 + k] == ib[k]);
                }
            }
            if ia.len() <= ib.len() {
                assert(ia =~= ib.subrange(0, ia.len() as int));
                T::lemma_encoding_prefix_free(va, vb);
            } else {
                assert(ib =~= ia.subrange(0, ib.len() as int));
                T::lemma_encoding_prefix_free(vb, va);
            }
        },
        _ => {},
    }
}

/// Of two runs of slots whose bytes begin the same bytes, the shorter run
/// begins the longer.
pub proof fn lemma_runs_agree<T: Item>(
    a: Seq<Option<T::V>>,
    b: Seq<Option<T::V>>,
    bytes: Seq<u8>,
)
    requires
        bytes.len() <= usize::MAX,
        a.len() <= b.len(),
        slots_encoding::<T>(a).is_prefix_of(bytes),
        slots_encoding::<T>(b).is_prefix_of(bytes),
    ensures
        a == b.take(a.len() as int),
    decreases a.len(),
{
    if a.len() == 0 {
        assert(a =~= b.take(0));
    } else {
        let n = a.len() as int;
        let front = a.drop_last();
        let ef = slots_encoding::<T>(front);
        lemma_runs_agree::<T>(front, b, bytes);
        lemma_slots_encoding_take::<T>(b, n - 1);
        let tail = bytes.skip(ef.len() as int);
        let ea = slot_encoding::<T>(a.last());
        let eb = slot_encoding::<T>(b[n - 1]);
        assert(ea =~= tail.subrange(0, ea.len() as int)) by {
            assert forall|k: int| 0 <= k < ea.len() implies ea[k] == tail[k] by {
                assert(slots_encoding::<T>(a)[ef.len() + k] == ea[k]);
            }
        }
        assert(eb =~= tail.subrange(0, eb.len() as int)) by {
            assert forall|k: int| 0 <= k < eb.len() implies eb[k] == tail[k] by {
                assert((ef + eb)[ef.len() + k] == eb[k]);
                assert(slots_encoding::<T>(b)[ef.len() + k] == eb[k]);
            }
        }
        lemma_slot_prefix_free::<T>(a.last(), b[n - 1], tail);
        assert(a =~= b.take(n));
    }
}

/// Bytes load as at most one table.
pub proof fn lemma_load_unique<T: Item>(
    bytes: Seq<u8>,
    capacity: usize,
    a: Seq<Option<T::V>>,
    b: Seq<Option<T::V>>,
)
    requires
        bytes.len() <= usize::MAX,
        loads_as::<T>(bytes, capacity, a),
        loads_as::<T>(bytes, capacity, b),
    ensures
        a == b,
{
    lemma_auto_spec_u64_to_from_le_bytes();
    let body = bytes.skip(8);
    lemma_body_begins::<T>(bytes, a);
    lemma_body_begins::<T>(bytes, b);
    lemma_runs_agree::<T>(a, b, body);
    assert(b.take(a.len() as int) =~= b);
}

/// Where bytes begin with a snapshot, what follows their first eight bytes
/// begins with the bytes of the slots.
pub proof fn lemma_body_begins<T: Item>(bytes: Seq<u8>, slots: Seq<Option<T::V>>)
    requires
        snapshot_of::<T>(slots).is_prefix_of(bytes),
    ensures
        bytes.len() >= 8,
        bytes.subrange(0, 8) == spec_u64_to_le_bytes(slots.len() as u64),
        slots_encoding::<T>(slots).is_prefix_of(bytes.skip(8)),
{
    lemma_auto_spec_u64_to_from_le_bytes();
    let head = spec_u64_to_le_bytes(slots.len() as u64);
    let body = slots_encoding::<T>(slots);
    let snapshot = snapshot_of::<T>(slots);
    assert(bytes.subrange(0, 8) =~= head) by {
        assert forall|k: int| 0 <= k < 8 implies bytes[k] == head[k] by {
            assert(snapshot[k] == head[k]);
        }
    }
    assert(body =~= bytes.skip(8).subrange(0, body.len() as int)) by {
        assert forall|k: int| 0 <= k < body.len() implies body[k] == bytes[8 + k] by {
            assert(snapshot[8 + k] == body[k]);
        }
    }
}

/// Where bytes begin with the snapshot of `slots`, and the bytes from the
/// eighth up to `pos` are those of the run `done`, which is shorter than
/// `slots`, then `done` begins `slots`, and the bytes from `pos` on begin
/// with those of the next slot.
pub proof fn lemma_next_slot<T: Item>(
    bytes: Seq<u8>,
    slots: Seq<Option<T::V>>,
    done: Seq<Option<T::V>>,
    pos: int,
)
    requires
        bytes.len() <= usize::MAX,
        snapshot_of::<T>(slots).is_prefix_of(bytes),
        8 <= pos <= bytes.len(),
        bytes.subrange(8, pos) == slots_encoding::<T>(done),
        done.len() < slots.len(),
    ensures
        slots.take(done.len() as int) == done,
        slot_encoding::<T>(slots[done.len() as int]).is_prefix_of(bytes.skip(pos)),
{
    let body = bytes.skip(8);
    let ed = slots_encoding::<T>(done);
    lemma_body_begins::<T>(bytes, slots);
    assert(ed =~= body.subrange(0, ed.len() as int));
    lemma_runs_agree::<T>(done, slots, body);
    lemma_slots_encoding_take::<T>(slots, done.len() as int);
    let next = slot_encoding::<T>(slots[done.len() as int]);
    let all = slots_encoding::<T>(slots);
    assert(next =~= bytes.skip(pos).subrange(0, next.len() as int)) by {
        assert forall|k: int| 0 <= k < next.len() implies next[k] == bytes[pos + k] by {
            assert((ed + next)[ed.len() + k] == next[k]);
            assert(all[ed.len() + k] == next[k]);
            assert(body[ed.len() + k] == all[ed.len() + k]);
        }
    }
}

/// Writes the snapshot of the slots in `data`.
pub fn encode_slots<T: Item>(data: &Vec<Option<T>>) -> (bytes: Vec<u8>)
    ensures
        bytes@ == snapshot_of::<T>(slot_views(data@)),
{
    let count: usize = data.len();
    let mut bytes: Vec<u8> = u64_to_le_bytes(count as u64);
    let ghost views = slot_views(data@);
    assert(views.take(0) =~= Seq::<Option<T::V>>::empty());
    let mut i: usize = 0;
    while i < count
        invariant
            count == data@.len(),
            views == slot_views(data@),
            i <= count,
            bytes@ == spec_u64_to_le_bytes(count as u64) + slots_encoding::<T>(views.take(i as int)),
        decreases count - i,
    {
        proof {
            lemma_slots_encoding_push::<T>(views.take(i as int), views[i as int]);
            assert(views.take(i as int).push(views[i as int]) =~= views.take(i + 1));
        }
        match &data[i] {
            None => {
                bytes.push(0u8);
            },
            Some(item) => {
                bytes.push(1u8);
                let mut encoded: Vec<u8> = item.encode();
                bytes.append(&mut encoded);
            },
        }
        assert(bytes@ =~= spec_u64_to_le_bytes(count as u64) + slots_encoding::<T>(
            views.take(i + 1),
        ));
        i = i + 1;
    }
    assert(views.take(count as int) =~= views);
    bytes
}

/// The first eight bytes of `bytes` do not give `capacity`, or are not all
/// there.
pub open spec fn header_differs(bytes: Seq<u8>, capacity: usize) -> bool {
    bytes.len() < 8 || bytes.subrange(0, 8) != spec_u64_to_le_bytes(capacity as u64)
}

/// `bytes` begin with the bytes of no slot: they are empty, or begin with a
/// byte that is no tag, or with the tag of a value and then the encoding of
/// no value.
pub open spec fn begins_no_slot<T: Item>(bytes: Seq<u8>) -> bool {
    ||| bytes.len() == 0
    ||| bytes[0] != 0 && bytes[0] != 1
    ||| bytes[0] == 1 && forall|v: T::V| !(#[trigger] T::encoding_of(v)).is_prefix_of(bytes.skip(1))
}

/// Bytes with another header load as no table of `capacity` slots.
pub proof fn lemma_header_differs<T: Item>(bytes: Seq<u8>, capacity: usize)
    requires
        header_differs(bytes, capacity),
    ensures
        forall|slots: Seq<Option<T::V>>| !#[trigger] loads_as::<T>(bytes, capacity, slots),
{
    assert forall|slots: Seq<Option<T::V>>| !#[trigger] loads_as::<T>(bytes, capacity, slots) by {
        if loads_as::<T>(bytes, capacity, slots) {
            lemma_body_begins::<T>(bytes, slots);
        }
    }
}

/// Bytes that hold the run `done` of fewer than `capacity` slots from the
/// eighth byte up to `pos`, and from there on begin with no slot, load as
/// no table of `capacity` slots.
pub proof fn lemma_next_slot_missing<T: Item>(
    bytes: Seq<u8>,
    capacity: usize,
    done: Seq<Option<T::V>>,
    pos: int,
)
    requires
        bytes.len() <= usize::MAX,
        8 <= pos <= bytes.len(),
        bytes.subrange(8, pos) == slots_encoding::<T>(done),
        done.len() < capacity,
        begins_no_slot::<T>(bytes.skip(pos)),
    ensures
        forall|slots: Seq<Option<T::V>>| !#[trigger] loads_as::<T>(bytes, capacity, slots),
{
    let tail = bytes.skip(pos);
    assert forall|slots: Seq<Option<T::V>>| !#[trigger] loads_as::<T>(bytes, capacity, slots) by {
        if loads_as::<T>(bytes, capacity, slots) {
            lemma_next_slot::<T>(bytes, slots, done, pos);
            let next = slots[done.len() as int];
            let encoded = slot_encoding::<T>(next);
            assert(encoded[0] == tail[0]);
            if next is Some {
                let item = T::encoding_of(next->Some_0);
                assert(item =~= tail.skip(1).subrange(0, item.len() as int)) by {
                    assert forall|k: int| 0 <= k < item.len() implies item[k] == tail[1 + k] by {
                        assert(encoded[1 + k] == item[k]);
                    }
                }
                assert(item.is_prefix_of(tail.skip(1)));
            }
        }
    }
}

/// Reads the slots of a table of `capacity` slots from the front of `bytes`.
///
/// The bytes load where they begin with the snapshot of such a table, and
/// then as that table; bytes after the snapshot are ignored. No other bytes
/// load: not those that are cut short, nor those that hold another number of
/// slots.
pub fn decode_slots<T: Item>(bytes: &[u8], capacity: usize) -> (r: Result<
    Vec<Option<T>>,
    CodecError,
>)
    ensures
        match r {
            Ok(data) => loads_as::<T>(bytes@, capacity, slot_views(data@)),
            Err(_) => forall|slots: Seq<Option<T::V>>| !#[trigger] loads_as::<T>(bytes@, capacity, slots),
        },
{
    let total: usize = bytes.len();
    if total < 8 {
        proof {
            lemma_header_differs::<T>(bytes@, capacity);
        }
        return Err(CodecError);
    }
    let count: u64 = u64_from_le_bytes(slice_subrange(bytes, 0, 8));
    proof {
        lemma_auto_spec_u64_to_from_le_bytes();
    }
    if count != capacity as u64 {
        proof {
            lemma_header_differs::<T>(bytes@, capacity);
        }
        return Err(CodecError);
    }
    let mut data: Vec<Option<T>> = Vec::new();
    let mut pos: usize = 8;
    assert(bytes@.subrange(8, 8) =~= slots_encoding::<T>(slot_views(data@)));
    while data.len() < capacity
        invariant
            total == bytes@.len(),
            8 <= pos <= total,
            data@.len() <= capacity,
            bytes@.subrange(0, 8) == spec_u64_to_le_bytes(capacity as u64),
            bytes@.subrange(8, pos as int) == slots_encoding::<T>(slot_views(data@)),
        decreases capacity - data@.len(),
    {
        let ghost done = slot_views(data@);
        if pos >= total {
            proof {
                lemma_next_slot_missing::<T>(bytes@, capacity, done, pos as int);
            }
            return Err(CodecError);
        }
        let tag: u8 = bytes[pos];
        if tag == 0 {
            data.push(None);
            proof {
                lemma_slots_encoding_push::<T>(done, None);
                assert(slot_views(data@) =~= done.push(None));
                assert(bytes@.subrange(8, pos + 1) =~= bytes@.subrange(8, pos as int) + seq![0u8]);
            }
            pos = pos + 1;
        } else if tag == 1 {
            let rest = slice_subrange(bytes, pos + 1, total);
            match T::decode(rest) {
                Some((item, used)) => {
                    let ghost v = item@;
                    data.push(Some(item));
                    proof {
                        lemma_slots_encoding_push::<T>(done, Some(v));
                        assert(slot_views(data@) =~= done.push(Some(v)));
                        assert(bytes@.subrange(8, pos + 1 + used) =~= bytes@.subrange(
                            8,
                            pos as int,
                        ) + (seq![1u8] + rest@.subrange(0, used as int)));
                    }
                    pos = pos + 1 + used;
                },
                None => {
                    proof {
                        assert(rest@ =~= bytes@.skip(pos as int).skip(1));
                        lemma_next_slot_missing::<T>(bytes@, capacity, done, pos as int);
                    }
                    return Err(CodecError);
                },
            }
        } else {
            proof {
                lemma_next_slot_missing::<T>(bytes@, capacity, done, pos as int);
            }
            return Err(CodecError);
        }
    }
    assert(snapshot_of::<T>(slot_views(data@)) =~= bytes@.subrange(0, pos as int));
    Ok(data)
}

} // verus!
