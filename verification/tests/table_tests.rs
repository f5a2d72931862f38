use rs_hash::HashMap;

use std::collections::hash_map::DefaultHasher;
use std::hash::Hash;
use std::hash::Hasher;

fn hasher<T: Hash>(key: &T) -> u32 {
    let mut h = DefaultHasher::new();
    key.hash(&mut h);
    h.finish() as u32
}

#[test]
fn test_default_creation() {
    let map: HashMap<String, String, fn(&String) -> u32> = HashMap::new(hasher);

    assert_eq!(map.capacity, 256);
}

#[test]
fn test_with_capacity_creation() {
    let map: HashMap<String, String, fn(&String) -> u32> = HashMap::with_capacity(100, hasher);

    assert_eq!(map.capacity, 100);
}

#[test]
fn test_insert() {
    let mut map = HashMap::with_capacity(16, hasher);

    map.insert("Hello,", "World");
}

#[test]
fn test_insert_overwrite() {
    let mut map = HashMap::with_capacity(16, hasher);

    map.insert("Hello,", "World");
    map.insert("Hello,", "Me");

    assert_eq!("Me", map.get("Hello,").unwrap());
    assert_eq!(1, map.len);
    assert!(
        map.buffer
            .iter()
            .filter_map(|elem| elem.as_ref())
            .all(|elem| elem.value == "Me")
    );
}

#[test]
fn test_insert_overwrite_removed() {
    let mut map = HashMap::with_capacity(16, hasher);

    map.insert("Hello,", "World");
    map.remove("Hello,");
    map.insert("Hello,", "Me");

    assert_eq!("Me", map.get("Hello,").unwrap());
    assert_eq!(1, map.len);
    assert!(
        map.buffer
            .iter()
            .filter_map(|elem| elem.as_ref())
            .all(|elem| elem.value == "Me")
    );
}

#[test]
fn test_get() {
    let mut map = HashMap::with_capacity(16, hasher);

    map.insert("Hello,", "World");

    assert_eq!("World", map.get("Hello,").unwrap());
    assert_eq!(None, map.get("Hi,"));
}

#[test]
fn test_remove() {
    let mut map = HashMap::with_capacity(16, hasher);

    map.insert("Hello,", "World");
    map.remove("Hello,");

    assert_eq!(None, map.get("Hello,"));
    assert!(
        !map.buffer
            .iter()
            .filter_map(|elem| elem.as_ref())
            .any(|elem| elem.key == "Hello,")
    );
}

#[test]
fn test_resize() {
    let size = 10;
    let mut map = HashMap::with_capacity(size, hasher);

    for i in 0..size {
        map.insert(i, "number");
    }

    for i in 0..size {
        assert_eq!(Some("number"), map.get(i));
    }

    assert_eq!(size * 2, map.buffer.len());
    assert_eq!(size * 2, map.capacity);
    assert_eq!(size, map.len);
    assert_eq!(map.capacity, map.buffer.len(),);
}

/// A hash that exposes collisions: the key itself.
fn id_hash(key: &u64) -> u32 {
    *key as u32
}

#[test]
fn test_round_trip_many_keys() {
    let mut map = HashMap::with_capacity(16, id_hash);

    for i in 0u64..50 {
        map.insert(i, i * 10);
    }
    for i in 0u64..50 {
        assert_eq!(Some(i * 10), map.get(i));
    }
    assert_eq!(50, map.len);
}

#[test]
fn test_length_accounting() {
    let mut map = HashMap::with_capacity(16, id_hash);

    assert_eq!(0, map.len);
    map.insert(1u64, 'a');
    map.insert(2u64, 'b');
    map.insert(3u64, 'c');
    assert_eq!(3, map.len);
    map.insert(2u64, 'd');
    assert_eq!(3, map.len);
    map.remove(1u64);
    assert_eq!(2, map.len);
    map.remove(1u64);
    assert_eq!(2, map.len);
    map.remove(2u64);
    map.remove(3u64);
    assert_eq!(0, map.len);
}

#[test]
fn test_psl_invariant_after_interleaving() {
    let mut map = HashMap::with_capacity(16, id_hash);

    // keys 0, 16, 32, 48 all hash to bucket 0; 1 and 17 to bucket 1
    for key in [0u64, 16, 32, 1, 17, 48, 5] {
        map.insert(key, key + 100);
    }
    map.remove(16u64);
    map.insert(9u64, 109);
    map.remove(1u64);

    let cap = map.capacity;
    let mut occupied = 0;
    for (i, slot) in map.buffer.iter().enumerate() {
        if let Some(elem) = slot {
            let ideal = (id_hash(&elem.key) as usize) % cap;
            let expected_psl = (i + cap - ideal) % cap;
            assert_eq!(expected_psl, elem.psl);
            occupied += 1;
        }
    }
    assert_eq!(map.len, occupied);
}

#[test]
fn test_backward_shift_moves_only_the_run() {
    let mut map = HashMap::with_capacity(8, id_hash);

    // all three keys share bucket 0 and line up in slots 0, 1, 2
    map.insert(0u64, 'x');
    map.insert(8u64, 'y');
    map.insert(16u64, 'z');
    map.insert(3u64, 'w');

    map.remove(0u64);

    let slot0 = map.buffer[0].as_ref().unwrap();
    assert_eq!(8u64, slot0.key);
    assert_eq!(0, slot0.psl);
    let slot1 = map.buffer[1].as_ref().unwrap();
    assert_eq!(16u64, slot1.key);
    assert_eq!(1, slot1.psl);
    assert!(map.buffer[2].is_none());
    // the entry at its own bucket is untouched
    let slot3 = map.buffer[3].as_ref().unwrap();
    assert_eq!(3u64, slot3.key);
    assert_eq!(0, slot3.psl);
}

#[test]
fn test_removal_leaves_no_trace() {
    let mut map = HashMap::with_capacity(8, id_hash);

    map.insert(0u64, 1u64);
    map.insert(8u64, 2u64);
    map.remove(0u64);

    assert_eq!(None, map.get(0u64));
    assert!(
        !map.buffer
            .iter()
            .filter_map(|elem| elem.as_ref())
            .any(|elem| elem.key == 0u64)
    );
    assert_eq!(Some(2u64), map.get(8u64));
}

#[test]
fn test_remove_absent_is_noop() {
    let mut map = HashMap::with_capacity(8, id_hash);

    map.insert(2u64, 'a');
    map.remove(5u64);

    assert_eq!(1, map.len);
    assert_eq!(Some('a'), map.get(2u64));
}

#[test]
fn test_capacity_one_grows_before_insert() {
    let mut map = HashMap::with_capacity(1, id_hash);

    map.insert(1u64, "one");
    map.insert(2u64, "two");

    assert_eq!(Some("one"), map.get(1u64));
    assert_eq!(Some("two"), map.get(2u64));
    assert!(map.capacity >= 2);
}

#[test]
fn test_resize_doubles_exactly_once_per_crossing() {
    let mut map = HashMap::with_capacity(10, id_hash);

    // the threshold is floor(10 * 4 / 5) == 8: the ninth insert doubles
    for i in 0u64..8 {
        map.insert(i, ());
        assert_eq!(10, map.capacity);
    }
    map.insert(8u64, ());
    assert_eq!(20, map.capacity);
    for i in 0u64..9 {
        assert_eq!(Some(()), map.get(i));
    }
}
