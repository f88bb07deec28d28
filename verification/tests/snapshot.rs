use qr_service::library::hashtable::HashTable;
use qr_service::library::item::Item;
use qr_service::library::probe::InsertOutcome;
use qr_service::library::snapshot::{decode_slots, encode_slots, CodecError};
use std::collections::hash_map::DefaultHasher;
use std::hash::{Hash, Hasher};

fn table(capacity: usize) -> HashTable<String> {
    HashTable::new(capacity, "table.bin")
}

fn load(capacity: usize, bytes: &[u8]) -> Result<HashTable<String>, CodecError> {
    HashTable::load(capacity, "table.bin", bytes)
}

#[test]
fn string_digest_is_the_default_hash() {
    for text in ["", "a", "QR", "longer text with spaces"] {
        let mut hasher = DefaultHasher::new();
        text.to_string().hash(&mut hasher);
        assert_eq!(text.to_string().digest(), hasher.finish());
    }
    assert_ne!("a".to_string().digest(), "b".to_string().digest());
}

#[test]
fn string_same_compares_the_text() {
    assert!("abc".to_string().same(&"abc".to_string()));
    assert!(!"abc".to_string().same(&"abd".to_string()));
    assert!(!"abc".to_string().same(&"ab".to_string()));
}

#[test]
fn string_encoding_is_length_then_text() {
    assert_eq!("".to_string().encode(), vec![0, 0, 0, 0, 0, 0, 0, 0]);
    assert_eq!("AB".to_string().encode(), vec![2, 0, 0, 0, 0, 0, 0, 0, 0x41, 0x42]);
    assert_eq!("é".to_string().encode(), vec![2, 0, 0, 0, 0, 0, 0, 0, 0xc3, 0xa9]);
    let long = "x".repeat(300);
    let bytes = long.clone().encode();
    assert_eq!(&bytes[..8], &[0x2c, 1, 0, 0, 0, 0, 0, 0]);
    assert_eq!(&bytes[8..], long.as_bytes());
}

#[test]
fn string_decoding_reads_one_value_and_leaves_the_rest() {
    let bytes = vec![2, 0, 0, 0, 0, 0, 0, 0, 0x41, 0x42, 0xff, 0xff];
    assert_eq!(String::decode(&bytes), Some(("AB".to_string(), 10)));
    assert_eq!(String::decode(&[0, 0, 0, 0, 0, 0, 0, 0]), Some((String::new(), 8)));
}

#[test]
fn string_decoding_refuses_what_is_no_encoding() {
    assert_eq!(String::decode(&[]), None);
    assert_eq!(String::decode(&[1, 0, 0, 0, 0, 0, 0]), None);
    assert_eq!(String::decode(&[3, 0, 0, 0, 0, 0, 0, 0, 0x41, 0x42]), None);
    assert_eq!(String::decode(&[1, 0, 0, 0, 0, 0, 0, 0, 0xff]), None);
    assert_eq!(String::decode(&[0xff, 0xff, 0xff, 0xff, 0xff, 0xff, 0xff, 0xff, 0x41]), None);
}

#[test]
fn snapshot_of_an_empty_table() {
    let t = table(3);
    assert_eq!(t.save(), vec![3, 0, 0, 0, 0, 0, 0, 0, 0, 0, 0]);
}

#[test]
fn snapshot_holds_the_slots_in_index_order() {
    let data = vec![None, Some("AB".to_string()), None, Some("".to_string())];
    let expected = vec![
        4, 0, 0, 0, 0, 0, 0, 0, // four slots
        0, // empty
        1, 2, 0, 0, 0, 0, 0, 0, 0, 0x41, 0x42, // "AB"
        0, // empty
        1, 0, 0, 0, 0, 0, 0, 0, 0, // ""
    ];
    assert_eq!(encode_slots(&data), expected);
    assert_eq!(decode_slots::<String>(&expected, 4), Ok(data));
}

#[test]
fn snapshot_is_what_bincode_writes_for_the_slots() {
    let mut t = table(11);
    for i in 0..6 {
        t.insert(format!("entry {}", i));
    }
    t.delete(&"entry 2".to_string());
    assert_eq!(t.save(), bincode::serialize(t.data()).unwrap());
}

#[test]
fn table_loads_what_bincode_wrote() {
    let slots = vec![Some("x".to_string()), None, Some("yz".to_string())];
    let bytes = bincode::serialize(&slots).unwrap();
    let t = load(3, &bytes).unwrap();
    assert_eq!(t.data(), &slots);
}

#[test]
fn table_made_from_its_snapshot_answers_as_the_table_did() {
    let mut t = table(17);
    let mut asked = Vec::new();
    for i in 0..12 {
        let item = format!("record {}", i);
        t.insert(item.clone());
        asked.push(item);
    }
    for i in [1, 4, 7] {
        t.delete(&format!("record {}", i));
    }
    asked.push("never stored".to_string());
    let bytes = t.save();
    let again = load(17, &bytes).unwrap();
    assert_eq!(again.data(), t.data());
    assert_eq!(again.capacity(), 17);
    for item in &asked {
        assert_eq!(again.search(item), t.search(item));
    }
    assert_eq!(again.save(), bytes);
}

#[test]
fn one_snapshot_after_a_fill_holds_the_whole_batch() {
    let mut t = table(8);
    let items: Vec<String> = (0..8).map(|i| format!("pool {}", i)).collect();
    t.fill(items.clone());
    let again = load(8, &t.save()).unwrap();
    for item in &items {
        assert!(again.search(item));
    }
}

#[test]
fn loaded_table_keeps_its_file_name() {
    let t = table(2);
    let again: HashTable<String> = HashTable::load(2, "other.bin", &t.save()).unwrap();
    assert_eq!(again.file_name(), "other.bin");
}

#[test]
fn bytes_after_the_snapshot_are_ignored() {
    let mut t = table(4);
    t.insert("kept".to_string());
    let mut bytes = t.save();
    bytes.extend_from_slice(&[9, 9, 9]);
    let again = load(4, &bytes).unwrap();
    assert_eq!(again.data(), t.data());
}

#[test]
fn load_refuses_a_header_that_is_cut_short() {
    assert!(matches!(load(1, &[]), Err(CodecError)));
    assert!(matches!(load(1, &[1, 0, 0, 0, 0, 0, 0]), Err(CodecError)));
}

#[test]
fn load_refuses_another_capacity() {
    let t = table(4);
    let bytes = t.save();
    assert!(matches!(load(5, &bytes), Err(CodecError)));
    assert!(matches!(load(3, &bytes), Err(CodecError)));
    assert!(load(4, &bytes).is_ok());
}

#[test]
fn load_refuses_slots_that_are_cut_short() {
    let mut t = table(3);
    t.insert("abc".to_string());
    let bytes = t.save();
    for cut in 0..bytes.len() {
        assert!(matches!(load(3, &bytes[..cut]), Err(CodecError)), "cut at {}", cut);
    }
}

#[test]
fn load_refuses_an_unknown_tag() {
    assert!(matches!(load(1, &[1, 0, 0, 0, 0, 0, 0, 0, 2]), Err(CodecError)));
    assert!(load(1, &[1, 0, 0, 0, 0, 0, 0, 0, 0]).is_ok());
}

#[test]
fn load_refuses_an_item_that_is_no_text() {
    let bytes = [1, 0, 0, 0, 0, 0, 0, 0, 1, 1, 0, 0, 0, 0, 0, 0, 0, 0xff];
    assert!(matches!(load(1, &bytes), Err(CodecError)));
}

#[test]
fn insert_into_a_loaded_table_goes_on_where_the_table_was() {
    let mut t = table(6);
    t.insert("first".to_string());
    let mut again = load(6, &t.save()).unwrap();
    assert_eq!(again.insert("first".to_string()), InsertOutcome::AlreadyExists);
    assert!(matches!(again.insert("second".to_string()), InsertOutcome::Stored(_)));
    assert!(again.search(&"first".to_string()));
    assert!(again.search(&"second".to_string()));
}
