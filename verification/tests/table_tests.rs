use rlox::heap::ObjectRef;
use rlox::table::{Hashable, Table};

/// A key whose hash is chosen freely, to make keys collide.
#[derive(Clone, Copy, PartialEq, Debug)]
struct Key {
    id: u32,
    hash: u32,
}

impl Hashable for Key {
    fn hash_value(&self) -> u32 {
        self.hash
    }

    fn hash(&self) -> u32 {
        self.hash
    }
}

fn key(id: u32, hash: u32) -> Key {
    Key { id, hash }
}

#[test]
fn a_handle_hashes_to_the_low_bits_of_its_slot() {
    assert_eq!(ObjectRef(0).hash(), 0);
    assert_eq!(ObjectRef(41).hash(), 41);
    assert_eq!(ObjectRef(usize::MAX).hash(), u32::MAX);
}

#[test]
fn a_new_table_is_empty_and_has_no_slot() {
    let mut table: Table<ObjectRef, u32> = Table::new();
    assert_eq!(table.capacity(), 0);
    assert_eq!(table.get(&ObjectRef(0)), None);
    assert!(!table.delete(&ObjectRef(0)));
    assert_eq!(table.capacity(), 0);
}

#[test]
fn set_says_whether_the_key_is_new() {
    let mut table: Table<ObjectRef, &str> = Table::new();
    assert!(table.set(&ObjectRef(1), "one"));
    assert!(table.set(&ObjectRef(2), "two"));
    assert!(!table.set(&ObjectRef(1), "uno"));
    assert_eq!(table.get(&ObjectRef(1)), Some(&"uno"));
    assert_eq!(table.get(&ObjectRef(2)), Some(&"two"));
    assert_eq!(table.get(&ObjectRef(3)), None);
    assert_eq!(table.capacity(), 8);
}

#[test]
fn delete_says_whether_the_key_was_there() {
    let mut table: Table<ObjectRef, u32> = Table::new();
    table.set(&ObjectRef(7), 70);
    assert!(table.delete(&ObjectRef(7)));
    assert!(!table.delete(&ObjectRef(7)));
    assert_eq!(table.get(&ObjectRef(7)), None);
    assert!(table.set(&ObjectRef(7), 71));
    assert_eq!(table.get(&ObjectRef(7)), Some(&71));
}

#[test]
fn the_table_grows_when_three_quarters_would_be_passed() {
    let mut table: Table<ObjectRef, usize> = Table::new();
    for i in 0..6 {
        assert!(table.set(&ObjectRef(i), i * 10));
        assert_eq!(table.capacity(), 8);
    }
    assert!(table.set(&ObjectRef(6), 60));
    assert_eq!(table.capacity(), 16);
    for i in 7..12 {
        table.set(&ObjectRef(i), i * 10);
    }
    assert_eq!(table.capacity(), 16);
    table.set(&ObjectRef(12), 120);
    assert_eq!(table.capacity(), 32);
    for i in 0..13 {
        assert_eq!(table.get(&ObjectRef(i)), Some(&(i * 10)));
    }
    assert_eq!(table.get(&ObjectRef(13)), None);
}

#[test]
fn the_table_grows_before_it_looks_for_the_key() {
    let mut table: Table<ObjectRef, usize> = Table::new();
    for i in 0..6 {
        table.set(&ObjectRef(i), i);
    }
    assert_eq!(table.capacity(), 8);
    // Six of eight slots are taken: the next `set` grows the table, though
    // the key is there.
    assert!(!table.set(&ObjectRef(0), 7));
    assert_eq!(table.capacity(), 16);
    for round in 0..20 {
        for i in 0..6 {
            assert!(!table.set(&ObjectRef(i), i + round));
        }
    }
    assert_eq!(table.capacity(), 16);
    assert_eq!(table.get(&ObjectRef(5)), Some(&24));
}

#[test]
fn colliding_keys_lie_one_after_the_other() {
    let mut table: Table<Key, u32> = Table::new();
    // All of these start at slot 5, and the ring is passed round its end.
    let keys: Vec<Key> = (0..5).map(|id| key(id, 5 + 8 * id)).collect();
    for k in &keys {
        assert!(table.set(k, k.id + 100));
    }
    for k in &keys {
        assert_eq!(table.get(k), Some(&(k.id + 100)));
    }
    assert_eq!(table.get(&key(9, 5)), None);
    assert_eq!(table.capacity(), 8);
}

#[test]
fn a_lookup_passes_over_tombstones() {
    let mut table: Table<Key, u32> = Table::new();
    let (a, b, c) = (key(1, 3), key(2, 3), key(3, 3));
    table.set(&a, 1);
    table.set(&b, 2);
    table.set(&c, 3);
    assert!(table.delete(&b));
    assert_eq!(table.get(&a), Some(&1));
    assert_eq!(table.get(&b), None);
    assert_eq!(table.get(&c), Some(&3));
    assert!(table.delete(&a));
    assert_eq!(table.get(&c), Some(&3));
    // A key that is there is found behind the tombstones, not put again.
    assert!(!table.set(&c, 30));
    assert_eq!(table.get(&c), Some(&30));
    // A new key takes the first tombstone.
    assert!(table.set(&b, 20));
    assert_eq!(table.get(&b), Some(&20));
    assert_eq!(table.get(&c), Some(&30));
    assert!(table.delete(&c));
    assert!(!table.delete(&c));
    assert_eq!(table.get(&b), Some(&20));
}

#[test]
fn tombstones_count_as_taken_until_the_table_grows() {
    let mut table: Table<ObjectRef, usize> = Table::new();
    for i in 0..6 {
        table.set(&ObjectRef(i), i);
    }
    for i in 0..6 {
        assert!(table.delete(&ObjectRef(i)));
    }
    assert_eq!(table.capacity(), 8);
    // The six tombstones still count: the next new key makes the table grow,
    // and the tombstones are left behind.
    assert!(table.set(&ObjectRef(100), 100));
    assert_eq!(table.capacity(), 16);
    for i in 0..6 {
        assert_eq!(table.get(&ObjectRef(i)), None);
    }
    assert_eq!(table.get(&ObjectRef(100)), Some(&100));
    for i in 0..11 {
        table.set(&ObjectRef(200 + i), i);
    }
    assert_eq!(table.capacity(), 16);
}

#[test]
fn a_thousand_keys_are_all_found() {
    let mut table: Table<Key, u32> = Table::new();
    for id in 0..1000u32 {
        assert!(table.set(&key(id, id.wrapping_mul(2654435761) % 97), id));
    }
    for id in (0..1000u32).step_by(3) {
        assert!(table.delete(&key(id, id.wrapping_mul(2654435761) % 97)));
    }
    for id in 0..1000u32 {
        let found = table.get(&key(id, id.wrapping_mul(2654435761) % 97));
        if id % 3 == 0 {
            assert_eq!(found, None);
        } else {
            assert_eq!(found, Some(&id));
        }
    }
    assert_eq!(table.capacity(), 2048);
}
