use probing_table::table::HashMap;

fn key(s: &str) -> Vec<u8> {
    s.as_bytes().to_vec()
}

#[test]
fn fresh_table_scenario() {
    let mut map: HashMap<i64> = HashMap::new();
    assert_eq!(map.capacity(), 8);
    assert_eq!(map.len(), 0);

    map.insert(key("apple"), 5);
    map.insert(key("banana"), 3);
    map.insert(key("carrot"), 7);
    assert_eq!(map.len(), 3);

    assert_eq!(map.get(&key("banana")), Some(&3));
    assert_eq!(map.get(&key("grape")), None);

    assert!(map.remove(&key("banana")));
    assert_eq!(map.get(&key("banana")), None);
    assert_eq!(map.get(&key("apple")), Some(&5));
    assert_eq!(map.get(&key("carrot")), Some(&7));
    assert_eq!(map.len(), 2);
}

#[test]
fn growth_scenario() {
    let mut map: HashMap<usize> = HashMap::new();
    assert_eq!(map.capacity(), 8);
    for i in 0..7usize {
        map.insert(key(&format!("key{}", i)), i);
    }
    // The 7th insertion crosses the 0.75 threshold and doubles the array.
    assert_eq!(map.capacity(), 16);
    assert_eq!(map.len(), 7);
    for i in 0..7usize {
        assert_eq!(map.get(&key(&format!("key{}", i))), Some(&i));
    }
}

#[test]
fn update_existing_key() {
    let mut map: HashMap<i64> = HashMap::new();
    map.insert(key("apple"), 1);
    assert_eq!(map.len(), 1);
    map.insert(key("apple"), 2);
    assert_eq!(map.len(), 1);
    assert_eq!(map.get(&key("apple")), Some(&2));
}

#[test]
fn tombstone_keeps_probe_chains() {
    // Pick three keys whose digests land in the same starting bucket of an
    // 8-slot table, so they sit on one probe chain.
    let probe_map: HashMap<i64> = HashMap::new();
    let mut colliding: Vec<String> = Vec::new();
    let mut i: usize = 0;
    let bucket: u64 = probe_map.hash(&key("seed0")) % 8;
    while colliding.len() < 3 {
        let name = format!("seed{}", i);
        if probe_map.hash(&key(&name)) % 8 == bucket {
            colliding.push(name);
        }
        i += 1;
    }

    let mut map: HashMap<i64> = HashMap::new();
    map.insert(key(&colliding[0]), 10);
    map.insert(key(&colliding[1]), 20);
    map.insert(key(&colliding[2]), 30);

    // Removing the middle key of the chain must not cut off the third.
    assert!(map.remove(&key(&colliding[1])));
    assert_eq!(map.get(&key(&colliding[1])), None);
    assert_eq!(map.get(&key(&colliding[0])), Some(&10));
    assert_eq!(map.get(&key(&colliding[2])), Some(&30));

    // A key inserted after the removal is found too, and the tombstone can
    // be reused without disturbing the others.
    map.insert(key(&colliding[1]), 40);
    assert_eq!(map.get(&key(&colliding[1])), Some(&40));
    assert_eq!(map.get(&key(&colliding[0])), Some(&10));
    assert_eq!(map.get(&key(&colliding[2])), Some(&30));
}

#[test]
fn saturated_bucket_grows_and_inserts() {
    // Four keys whose digests share a starting bucket mod 8.  In a fresh
    // 8-slot table the first three fill the whole quadratic probe chain of
    // that bucket (offsets 0, 1 and 4), so the fourth finds every probe
    // index occupied: the table must grow and place it, not drop it.
    let probe_map: HashMap<i64> = HashMap::new();
    let mut colliding: Vec<String> = Vec::new();
    let mut i: usize = 0;
    let bucket: u64 = probe_map.hash(&key("pack0")) % 8;
    while colliding.len() < 4 {
        let name = format!("pack{}", i);
        if probe_map.hash(&key(&name)) % 8 == bucket {
            colliding.push(name);
        }
        i += 1;
    }

    let mut map: HashMap<i64> = HashMap::new();
    map.insert(key(&colliding[0]), 1);
    map.insert(key(&colliding[1]), 2);
    map.insert(key(&colliding[2]), 3);
    assert_eq!(map.capacity(), 8);

    map.insert(key(&colliding[3]), 4);
    assert_eq!(map.capacity(), 16);
    assert_eq!(map.len(), 4);
    assert_eq!(map.get(&key(&colliding[0])), Some(&1));
    assert_eq!(map.get(&key(&colliding[1])), Some(&2));
    assert_eq!(map.get(&key(&colliding[2])), Some(&3));
    assert_eq!(map.get(&key(&colliding[3])), Some(&4));
}

#[test]
fn remove_nonexistent_key() {
    let mut map: HashMap<i64> = HashMap::new();
    map.insert(key("apple"), 5);
    map.insert(key("banana"), 3);
    let len_before: usize = map.len();

    assert!(!map.remove(&key("grape")));
    assert_eq!(map.len(), len_before);
    assert_eq!(map.get(&key("apple")), Some(&5));
    assert_eq!(map.get(&key("banana")), Some(&3));
}

#[test]
fn resize_preserves_entries() {
    let mut map: HashMap<usize> = HashMap::new();
    for i in 0..5usize {
        map.insert(key(&format!("entry{}", i)), i * 100);
    }
    assert!(map.remove(&key("entry2")));
    assert_eq!(map.len(), 4);
    assert_eq!(map.capacity(), 8);

    map.resize();
    assert_eq!(map.capacity(), 16);
    assert_eq!(map.len(), 4);
    for i in 0..5usize {
        if i == 2 {
            assert_eq!(map.get(&key("entry2")), None);
        } else {
            assert_eq!(map.get(&key(&format!("entry{}", i))), Some(&(i * 100)));
        }
    }
}

#[test]
fn load_factor_bounded_after_inserts() {
    let mut map: HashMap<usize> = HashMap::new();
    for i in 0..40usize {
        map.insert(key(&format!("load{}", i)), i);
        assert!(4 * map.len() <= 3 * map.capacity());
    }
    assert_eq!(map.len(), 40);
}

#[test]
fn last_write_wins_over_sequences() {
    let mut map: HashMap<i64> = HashMap::new();
    map.insert(key("a"), 1);
    map.insert(key("b"), 2);
    map.insert(key("c"), 3);
    map.insert(key("a"), 4);
    map.insert(key("b"), 5);
    assert_eq!(map.get(&key("a")), Some(&4));
    assert_eq!(map.get(&key("b")), Some(&5));
    assert_eq!(map.get(&key("c")), Some(&3));
}

#[test]
fn hash_is_deterministic_fnv1a() {
    let map: HashMap<i64> = HashMap::new();
    assert_eq!(map.hash(&key("abc")), map.hash(&key("abc")));
    // Published FNV-1a 64-bit digests.
    assert_eq!(map.hash(&Vec::new()), 0xcbf2_9ce4_8422_2325);
    assert_eq!(map.hash(&key("a")), 0xaf63_dc4c_8601_ec8c);
}
