use castbox::AtomicHashMap;
use castbox::atomic_hashmap::Item;

#[test]
fn test_concurrent_map_scenario() {
    // 1,000 distinct keys inserted, then every key read back exactly once
    let mut m: AtomicHashMap<u64> = AtomicHashMap::new();
    let mut k: u64 = 0;
    while k < 1000 {
        m.insert(k, k * 2);
        k += 1;
    }
    assert_eq!(m.len(), 1000);

    let mut k: u64 = 0;
    while k < 1000 {
        let g = m.get(k).unwrap();
        assert_eq!(*g.read(&m), k * 2);
        g.release(&mut m);
        k += 1;
    }

    // a full-table iteration sees each entry exactly once
    let mut seen: Vec<bool> = vec![false; 1000];
    let mut count: usize = 0;
    let mut it = m.iter();
    loop {
        match m.next(&mut it) {
            Some((key, value)) => {
                assert_eq!(*value, key * 2);
                assert!(!seen[key as usize]);
                seen[key as usize] = true;
                count += 1;
            }
            None => break,
        }
    }
    m.finish(it);
    assert_eq!(count, 1000);
}

#[test]
fn insert_updates_an_existing_key() {
    let mut m: AtomicHashMap<&str> = AtomicHashMap::new();
    m.insert(1, "a");
    assert_eq!(m.len(), 1);
    m.insert(1, "b");
    assert_eq!(m.len(), 1);
    let g = m.get(1).unwrap();
    assert_eq!(*g.read(&m), "b");
    g.release(&mut m);
}

#[test]
fn remove_hands_the_value_back() {
    let mut m: AtomicHashMap<String> = AtomicHashMap::new();
    m.insert(5, String::from("five"));
    m.insert(6, String::from("six"));
    assert_eq!(m.len(), 2);
    assert_eq!(m.remove(5), Some(String::from("five")));
    assert_eq!(m.len(), 1);
    assert!(m.get(5).is_none());
    assert_eq!(m.remove(5), None);
    assert_eq!(m.len(), 1);
    let g = m.get(6).unwrap();
    assert_eq!(*g.read(&m), "six");
    g.release(&mut m);
}

#[test]
fn colliding_keys_share_a_bucket() {
    // one bucket: every key collides, and the chain still keeps them apart
    let mut m: AtomicHashMap<u64> = AtomicHashMap::with_capacity(1);
    let mut k: u64 = 0;
    while k < 10 {
        m.insert(k, 100 + k);
        k += 1;
    }
    assert_eq!(m.len(), 10);
    assert_eq!(m.remove(4), Some(104));
    assert_eq!(m.len(), 9);
    let mut k: u64 = 0;
    while k < 10 {
        match m.get(k) {
            Some(g) => {
                assert!(k != 4);
                assert_eq!(*g.read(&m), 100 + k);
                g.release(&mut m);
            }
            None => assert_eq!(k, 4),
        }
        k += 1;
    }
}

#[test]
fn get_mut_writes_through_the_guard() {
    let mut m: AtomicHashMap<i32> = AtomicHashMap::new();
    m.insert(7, 1);
    assert!(m.get_mut(8).is_none());
    let g = m.get_mut(7).unwrap();
    assert!(g.is_locked(&m));
    let v = *g.read(&m);
    g.write(&mut m, v + 41);
    g.release(&mut m);
    assert!(!castbox::WatchGuardMut::new(0, 7).is_locked(&m));
    let g = m.get(7).unwrap();
    assert_eq!(*g.read(&m), 42);
    g.release(&mut m);
    assert_eq!(m.len(), 1);
}

#[test]
fn iteration_order_is_bucket_by_bucket_newest_first() {
    // a single bucket chains entries newest first
    let mut m: AtomicHashMap<u64> = AtomicHashMap::with_capacity(1);
    m.insert(1, 10);
    m.insert(2, 20);
    m.insert(3, 30);
    let mut it = m.iter();
    let first = m.next(&mut it).map(|p| (p.0, *p.1));
    let second = m.next(&mut it).map(|p| (p.0, *p.1));
    let third = m.next(&mut it).map(|p| (p.0, *p.1));
    let done = m.next(&mut it).map(|p| (p.0, *p.1));
    m.finish(it);
    assert_eq!(first, Some((3, 30)));
    assert_eq!(second, Some((2, 20)));
    assert_eq!(third, Some((1, 10)));
    assert_eq!(done, None);
}

#[test]
fn empty_map_iterates_nothing() {
    let mut m: AtomicHashMap<i32> = AtomicHashMap::new();
    assert_eq!(m.len(), 0);
    assert_eq!(m.get_ref_count(), 1);
    let mut it = m.iter();
    assert!(m.next(&mut it).is_none());
    m.finish(it);
}

#[test]
fn map_item_carries_key_and_value() {
    let it = Item::new(3u64, "x");
    assert_eq!(it.key, 3);
    assert_eq!(it.value, "x");
}
