use lockfree_set::Elem;
use lockfree_set::LockFreeSet;

#[test]
fn iterator_yields_each_record_once() {
    let mut set = LockFreeSet::new();
    let keys = [9u64, 7, 0, 1 << 40, 12345, u64::MAX];
    for &k in keys.iter() {
        set.insert(Elem::new(k, k ^ 1)).unwrap();
    }
    let mut seen: Vec<u64> = Vec::new();
    let mut it = set.iter();
    while let Some(guard) = it.next() {
        assert!(!seen.contains(&guard.key()));
        assert_eq!(guard.meta(), guard.key() ^ 1);
        seen.push(guard.key());
    }
    assert_eq!(seen.len(), keys.len());
    for &k in keys.iter() {
        assert!(seen.contains(&k));
    }
}

#[test]
fn iterator_on_empty_set_is_done() {
    let set = LockFreeSet::new();
    let mut it = set.iter();
    assert!(it.next().is_none());
    assert!(it.next().is_none());
}

#[test]
fn optimize_space_keeps_every_element() {
    let mut set = LockFreeSet::new();
    for k in 0u64..32 {
        set.insert(Elem::new(k * 17, k)).unwrap();
    }
    for k in 0u64..16 {
        set.remove(k * 2 * 17).unwrap();
    }
    set.optimize_space();
    for k in 0u64..32 {
        assert_eq!(set.contains(k * 17), k % 2 == 1);
    }
    for k in 0u64..16 {
        assert_eq!(set.get((k * 2 + 1) * 17).unwrap().meta(), k * 2 + 1);
    }
}

#[test]
fn clear_empties_the_set() {
    let mut set = LockFreeSet::new();
    for k in 0u64..10 {
        set.insert(Elem::new(k, 0)).unwrap();
    }
    set.clear();
    for k in 0u64..10 {
        assert!(!set.contains(k));
    }
    let mut it = set.iter();
    assert!(it.next().is_none());
}

#[test]
fn disjoint_ranges_settle_to_serial_result() {
    // Interleaved operations on disjoint key ranges end in the state each
    // range would reach on its own.
    let mut set = LockFreeSet::new();
    for step in 0u64..100 {
        let low_key = step % 10;
        let high_key = 1000 + step % 10;
        if step % 3 == 0 {
            let _ = set.insert(Elem::new(low_key, step));
        } else if step % 3 == 1 {
            let _ = set.insert(Elem::new(high_key, step));
        } else {
            let _ = set.remove(low_key);
        }
    }
    for k in 0u64..10 {
        // Every low key is removed after its last insertion.
        let last_insert = (0u64..100).filter(|s| s % 3 == 0 && s % 10 == k).max();
        let last_remove = (0u64..100).filter(|s| s % 3 == 2 && s % 10 == k).max();
        let expected = match (last_insert, last_remove) {
            (Some(i), Some(r)) => i > r,
            (Some(_), None) => true,
            _ => false,
        };
        assert_eq!(set.contains(k), expected);
    }
    for k in 0u64..10 {
        let expected = (0u64..100).any(|s| s % 3 == 1 && s % 10 == k);
        assert_eq!(set.contains(1000 + k), expected);
    }
}
