//! Strings as table items: hashed by std's default hasher, encoded by bincode.

use crate::library::item::Item;
use std::collections::hash_map::DefaultHasher;
use std::hash::{Hash, Hasher};
use vstd::bytes::{lemma_auto_spec_u64_to_from_le_bytes, spec_u64_to_le_bytes};
use vstd::prelude::*;
use vstd::std_specs::hash::DefaultHasherAdditionalSpecFns;
use vstd::utf8::{encode_utf8, encode_utf8_decode_utf8};

verus! {

/// `bincode::ErrorKind`, the error of bincode's calls. Nothing is known of
/// it here.
#[verifier::external_type_specification]
#[verifier::external_body]
pub struct ExBincodeErrorKind(bincode::ErrorKind);

/// What a `DefaultHasher` that had been fed `before` has been fed once the
/// string `s` was hashed into it by `<String as Hash>::hash`. The standard
/// library does not say what that is, only that a hasher that is fed the
/// same gives the same hash, so it has a name and no definition.
pub uninterp spec fn hasher_fed_string(before: Seq<Seq<u8>>, s: Seq<char>) -> Seq<Seq<u8>>;

/// The bytes of a string in a snapshot: the length of its UTF-8 form as eight
/// bytes, least significant first, and then the UTF-8 form itself.
pub open spec fn string_encoding(s: Seq<char>) -> Seq<u8> {
    spec_u64_to_le_bytes(encode_utf8(s).len() as u64) + encode_utf8(s)
}

/// Calls `<String as Hash>::hash` with std's `DefaultHasher` as the state.
/// Believed, not proved: what the hasher has been fed afterwards depends on
/// nothing but what it had been fed before and the string's text, in every
/// run of one build of the program.
#[verifier::external_body]
fn hash_string(s: &String, state: &mut DefaultHasher)
    ensures
        final(state)@ == hasher_fed_string(old(state)@, s@),
{
    s.hash(state)
}

/// Calls `bincode::serialize` on a string. Believed, not proved: the call
/// succeeds (it writes into memory, without a limit on the size), and gives
/// the length of the string's UTF-8 form as a little-endian `u64` followed
/// by that form.
#[verifier::external_body]
fn serialize_string(s: &String) -> (r: Result<Vec<u8>, Box<bincode::ErrorKind>>)
    ensures
        match r {
            Ok(bytes) => bytes@ == string_encoding(s@),
            Err(_) => false,
        },
{
    bincode::serialize(s)
}

/// Calls `bincode::deserialize` for a `String`. Believed, not proved: the
/// call succeeds exactly when `bytes` begins with the encoding of a string,
/// that is with a length as a little-endian `u64` and as many bytes of
/// valid UTF-8; it gives that string, and ignores the bytes after it.
#[verifier::external_body]
fn deserialize_string(bytes: &[u8]) -> (r: Result<String, Box<bincode::ErrorKind>>)
    ensures
        match r {
            Ok(s) => string_encoding(s@).is_prefix_of(bytes@),
            Err(_) => forall|v: Seq<char>| !(#[trigger] string_encoding(v)).is_prefix_of(bytes@),
        },
{
    bincode::deserialize::<String>(bytes)
}

/// The encoding of a string is eight bytes longer than its UTF-8 form.
pub proof fn lemma_string_encoding_len(s: Seq<char>)
    ensures
        string_encoding(s).len() == 8 + encode_utf8(s).len(),
{
    lemma_auto_spec_u64_to_from_le_bytes();
}

impl Item for String {
    open spec fn hash_of(v: Seq<char>) -> u64 {
        DefaultHasher::spec_finish(hasher_fed_string(Seq::empty(), v))
    }

    open spec fn encoding_of(v: Seq<char>) -> Seq<u8> {
        string_encoding(v)
    }

    proof fn lemma_encoding_prefix_free(a: Seq<char>, b: Seq<char>) {
        lemma_auto_spec_u64_to_from_le_bytes();
        let ea = string_encoding(a);
        let eb = string_encoding(b);
        let la = encode_utf8(a).len() as u64;
        let lb = encode_utf8(b).len() as u64;
        assert(ea.subrange(0, 8) =~= spec_u64_to_le_bytes(la));
        assert(eb.subrange(0, 8) =~= spec_u64_to_le_bytes(lb));
        assert(ea.subrange(0, 8) =~= eb.subrange(0, 8));
        assert(la == lb);
        assert(encode_utf8(a) =~= ea.subrange(8, ea.len() as int));
        assert(encode_utf8(b) =~= eb.subrange(8, eb.len() as int));
        assert(encode_utf8(a) =~= encode_utf8(b));
        encode_utf8_decode_utf8(a);
        encode_utf8_decode_utf8(b);
    }

    fn digest(&self) -> (h: u64) {
        let mut state = DefaultHasher::new();
        hash_string(self, &mut state);
        state.finish()
    }

    fn same(&self, other: &Self) -> (r: bool) {
        *self == *other
    }

    fn encode(&self) -> (bytes: Vec<u8>) {
        match serialize_string(self) {
            Ok(bytes) => bytes,
            // Never taken: a string is always serialized.
            Err(_) => Vec::new(),
        }
    }

    fn decode(bytes: &[u8]) -> (r: Option<(Self, usize)>) {
        match deserialize_string(bytes) {
            Ok(s) => {
                let text_len: usize = s.as_str().as_bytes().len();
                proof {
                    lemma_string_encoding_len(s@);
                    assert(string_encoding(s@).len() <= bytes.len());
                }
                let used: usize = 8 + text_len;
                Some((s, used))
            },
            Err(_) => None,
        }
    }
}

} // verus!
