//! What a table asks of the values it stores.

use vstd::prelude::*;

verus! {

/// A value that a table can store.
///
/// The table never looks inside a value. It asks for a hash to find the
/// value's home slot, for a comparison to tell two values apart, and for an
/// encoding to write the value into a snapshot and read it back. All three
/// are functions of the value's view, so two values with one view are one
/// value to the table.
pub trait Item: View + Sized {
    /// The hash of the value whose view is `v`.
    spec fn hash_of(v: Self::V) -> u64;

    /// The bytes that stand for the value whose view is `v` in a snapshot.
    spec fn encoding_of(v: Self::V) -> Seq<u8>;

    /// No encoding that fits in memory begins with the encoding of another
    /// value: where one value's bytes end is settled by the bytes themselves.
    proof fn lemma_encoding_prefix_free(a: Self::V, b: Self::V)
        requires
            Self::encoding_of(b).len() <= usize::MAX,
            Self::encoding_of(a).is_prefix_of(Self::encoding_of(b)),
        ensures
            a == b,
    ;

    /// Hashes the value.
    fn digest(&self) -> (h: u64)
        ensures
            h == Self::hash_of(self@),
    ;

    /// Compares two values.
    fn same(&self, other: &Self) -> (r: bool)
        ensures
            r == (self@ == other@),
    ;

    /// Encodes the value.
    fn encode(&self) -> (bytes: Vec<u8>)
        ensures
            bytes@ == Self::encoding_of(self@),
    ;

    /// Reads one value from the front of `bytes`, and says how many bytes it
    /// took. Bytes after the value are left alone. `None` means that `bytes`
    /// begins with the encoding of no value.
    fn decode(bytes: &[u8]) -> (r: Option<(Self, usize)>)
        ensures
            match r {
                Some((item, used)) => {
                    &&& used <= bytes@.len()
                    &&& bytes@.subrange(0, used as int) == Self::encoding_of(item@)
                },
                None => forall|v: Self::V| !(#[trigger] Self::encoding_of(v)).is_prefix_of(bytes@),
            },
    ;
}

/// What the slots hold, each value seen through its view.
pub open spec fn slot_views<T: View>(data: Seq<Option<T>>) -> Seq<Option<T::V>> {
    Seq::new(
        data.len(),
        |i: int|
            match data[i] {
                Some(item) => Some(item@),
                None => None,
            },
    )
}

/// The views of a sequence of values.
pub open spec fn item_views<T: View>(items: Seq<T>) -> Seq<T::V> {
    Seq::new(items.len(), |i: int| items[i]@)
}

} // verus!
