use qr_service::library::hashtable::HashTable;
use qr_service::library::probe::InsertOutcome;
use std::collections::hash_map::DefaultHasher;
use std::hash::{Hash, Hasher};

fn table(capacity: usize) -> HashTable<String> {
    HashTable::new(capacity, "table.bin")
}

/// The `n`-th of the strings "item0", "item1", ... whose home slot in `t` is `home`.
fn nth_with_home(t: &HashTable<String>, home: usize, n: usize) -> String {
    let mut seen = 0;
    let mut i = 0u64;
    loop {
        let s = format!("item{}", i);
        if t.home_slot(&s) == home {
            if seen == n {
                return s;
            }
            seen += 1;
        }
        i += 1;
    }
}

fn occupied(t: &HashTable<String>) -> usize {
    t.data().iter().filter(|slot| slot.is_some()).count()
}

#[test]
fn new_table_has_every_slot_empty() {
    let t = table(6);
    assert_eq!(t.capacity(), 6);
    assert_eq!(t.file_name(), "table.bin");
    assert_eq!(t.data().len(), 6);
    assert!(t.data().iter().all(|slot| slot.is_none()));
}

#[test]
fn home_slot_is_the_default_hash_modulo_the_capacity() {
    let t = table(13);
    for text in ["", "A", "B", "hello world", "ünïcödé"] {
        let mut hasher = DefaultHasher::new();
        text.to_string().hash(&mut hasher);
        let expected = hasher.finish() as usize % 13;
        assert_eq!(t.home_slot(&text.to_string()), expected);
    }
}

#[test]
fn insert_then_search_finds() {
    let mut t = table(8);
    assert!(!t.search(&"alpha".to_string()));
    let home = t.home_slot(&"alpha".to_string());
    assert_eq!(t.insert("alpha".to_string()), InsertOutcome::Stored(home));
    assert_eq!(t.data()[home], Some("alpha".to_string()));
    assert!(t.search(&"alpha".to_string()));
    assert!(!t.search(&"beta".to_string()));
}

#[test]
fn distinct_inserts_are_all_found_each_in_its_own_slot() {
    let mut t = table(100);
    let mut positions = Vec::new();
    for i in 0..50 {
        match t.insert(format!("value-{}", i)) {
            InsertOutcome::Stored(position) => positions.push(position),
            other => panic!("insert {} ended in {:?}", i, other),
        }
    }
    for i in 0..50 {
        assert!(t.search(&format!("value-{}", i)));
        assert_eq!(t.data()[positions[i]], Some(format!("value-{}", i)));
    }
    let mut sorted = positions.clone();
    sorted.sort();
    sorted.dedup();
    assert_eq!(sorted.len(), 50);
    assert_eq!(occupied(&t), 50);
}

#[test]
fn distinct_inserts_fill_a_table_to_the_last_slot() {
    let mut t = table(16);
    for i in 0..16 {
        assert!(matches!(t.insert(format!("v{}", i)), InsertOutcome::Stored(_)));
    }
    for i in 0..16 {
        assert!(t.search(&format!("v{}", i)));
    }
    assert_eq!(occupied(&t), 16);
}

#[test]
fn second_insert_of_a_value_is_refused() {
    let mut t = table(10);
    t.insert("other".to_string());
    let first = t.insert("same".to_string());
    assert!(matches!(first, InsertOutcome::Stored(_)));
    let before = t.data().clone();
    assert_eq!(t.insert("same".to_string()), InsertOutcome::AlreadyExists);
    assert_eq!(t.data(), &before);
    assert_eq!(occupied(&t), 2);
}

#[test]
fn one_chain_fills_the_table_and_then_there_is_no_space() {
    let mut t = table(7);
    let items: Vec<String> = (0..7).map(|n| nth_with_home(&t, 3, n)).collect();
    for (i, item) in items.iter().enumerate() {
        assert_eq!(t.insert(item.clone()), InsertOutcome::Stored((3 + i) % 7));
    }
    assert_eq!(occupied(&t), 7);
    let before = t.data().clone();
    for home in 0..7 {
        let next = nth_with_home(&t, home, 9);
        assert_eq!(t.insert(next), InsertOutcome::NoSpace);
    }
    assert_eq!(t.insert(items[4].clone()), InsertOutcome::AlreadyExists);
    assert_eq!(t.data(), &before);
}

#[test]
fn probe_wraps_past_the_last_slot() {
    let mut t = table(4);
    let a = nth_with_home(&t, 3, 0);
    let b = nth_with_home(&t, 3, 1);
    let c = nth_with_home(&t, 3, 2);
    assert_eq!(t.insert(a.clone()), InsertOutcome::Stored(3));
    assert_eq!(t.insert(b.clone()), InsertOutcome::Stored(0));
    assert_eq!(t.insert(c.clone()), InsertOutcome::Stored(1));
    assert!(t.search(&a));
    assert!(t.search(&b));
    assert!(t.search(&c));
}

#[test]
fn search_ends_at_the_first_empty_slot() {
    let mut t = table(5);
    let a = nth_with_home(&t, 1, 0);
    let b = nth_with_home(&t, 1, 1);
    let absent = nth_with_home(&t, 1, 2);
    t.insert(a);
    t.insert(b);
    assert!(!t.search(&absent));
}

#[test]
fn search_in_a_full_table_ends_without_the_value() {
    let mut t = table(3);
    for i in 0..3 {
        t.insert(format!("full{}", i));
    }
    assert_eq!(occupied(&t), 3);
    assert!(!t.search(&"absent".to_string()));
    assert!(!t.delete(&"absent".to_string()));
    assert_eq!(occupied(&t), 3);
}

#[test]
fn deletion_hides_items_stored_past_the_emptied_slot() {
    let mut t = table(5);
    let a = nth_with_home(&t, 2, 0);
    let b = nth_with_home(&t, 2, 1);
    let c = nth_with_home(&t, 4, 0);
    assert_eq!(t.insert(a.clone()), InsertOutcome::Stored(2));
    assert_eq!(t.insert(b.clone()), InsertOutcome::Stored(3));
    assert_eq!(t.insert(c.clone()), InsertOutcome::Stored(4));
    assert!(t.delete(&a));
    assert_eq!(t.data()[2], None);
    assert_eq!(t.data()[3], Some(b.clone()));
    assert!(!t.search(&b));
    assert!(t.search(&c));
}

#[test]
fn insert_after_a_deletion_can_store_a_value_twice() {
    let mut t = table(5);
    let a = nth_with_home(&t, 2, 0);
    let b = nth_with_home(&t, 2, 1);
    t.insert(a.clone());
    t.insert(b.clone());
    t.delete(&a);
    assert_eq!(t.insert(b.clone()), InsertOutcome::Stored(2));
    assert_eq!(t.data()[2], Some(b.clone()));
    assert_eq!(t.data()[3], Some(b));
}

#[test]
fn delete_empties_the_slot_of_the_value() {
    let mut t = table(9);
    t.insert("keep".to_string());
    let position = match t.insert("drop".to_string()) {
        InsertOutcome::Stored(position) => position,
        other => panic!("{:?}", other),
    };
    assert!(t.delete(&"drop".to_string()));
    assert_eq!(t.data()[position], None);
    assert!(!t.search(&"drop".to_string()));
    assert!(t.search(&"keep".to_string()));
    assert_eq!(occupied(&t), 1);
}

#[test]
fn delete_of_an_absent_value_changes_nothing() {
    let mut t = table(9);
    t.insert("keep".to_string());
    let before = t.data().clone();
    assert!(!t.delete(&"absent".to_string()));
    assert_eq!(t.data(), &before);
}

#[test]
fn fill_one_takes_the_first_free_slot_from_home() {
    let mut t = table(6);
    let a = nth_with_home(&t, 4, 0);
    let b = nth_with_home(&t, 4, 1);
    let c = nth_with_home(&t, 4, 2);
    t.fill_one(a.clone());
    t.fill_one(b.clone());
    t.fill_one(c.clone());
    assert_eq!(t.data()[4], Some(a));
    assert_eq!(t.data()[5], Some(b));
    assert_eq!(t.data()[0], Some(c));
}

#[test]
fn fill_does_not_look_for_equal_values() {
    let mut t = table(6);
    let a = nth_with_home(&t, 1, 0);
    t.fill(vec![a.clone(), a.clone()]);
    assert_eq!(t.data()[1], Some(a.clone()));
    assert_eq!(t.data()[2], Some(a));
    assert_eq!(occupied(&t), 2);
}

#[test]
fn fill_places_the_items_in_order() {
    let mut t = table(5);
    let a = nth_with_home(&t, 0, 0);
    let b = nth_with_home(&t, 0, 1);
    let c = nth_with_home(&t, 1, 0);
    t.fill(vec![a.clone(), b.clone(), c.clone()]);
    assert_eq!(t.data()[0], Some(a.clone()));
    assert_eq!(t.data()[1], Some(b.clone()));
    assert_eq!(t.data()[2], Some(c.clone()));
    assert!(t.search(&a) && t.search(&b) && t.search(&c));
}

#[test]
fn fill_with_as_many_items_as_slots_fills_the_table() {
    let mut t = table(12);
    let items: Vec<String> = (0..12).map(|i| format!("pool-{}", i)).collect();
    t.fill(items.clone());
    assert_eq!(occupied(&t), 12);
    for item in &items {
        assert!(t.search(item));
    }
}

#[test]
fn fill_drops_what_finds_no_room() {
    let mut t = table(3);
    let items: Vec<String> = (0..5).map(|i| format!("pool-{}", i)).collect();
    t.fill(items.clone());
    assert_eq!(occupied(&t), 3);
    for item in &items[..3] {
        assert!(t.search(item));
    }
    for item in &items[3..] {
        assert!(!t.data().contains(&Some(item.clone())));
    }
}

#[test]
fn fill_of_nothing_changes_nothing() {
    let mut t = table(3);
    t.insert("x".to_string());
    let before = t.data().clone();
    t.fill(Vec::new());
    assert_eq!(t.data(), &before);
}

#[test]
fn table_of_one_slot() {
    let mut t = table(1);
    assert_eq!(t.home_slot(&"only".to_string()), 0);
    assert_eq!(t.insert("only".to_string()), InsertOutcome::Stored(0));
    assert_eq!(t.insert("only".to_string()), InsertOutcome::AlreadyExists);
    assert_eq!(t.insert("more".to_string()), InsertOutcome::NoSpace);
    assert!(t.delete(&"only".to_string()));
    assert_eq!(t.insert("more".to_string()), InsertOutcome::Stored(0));
}
