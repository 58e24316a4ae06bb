use lockfree_set::Elem;
use lockfree_set::LockFreeSet;

#[test]
fn inserts_and_contains_checks() {
    let mut set = LockFreeSet::new();
    assert!(!set.contains(3));
    assert!(!set.contains(5));
    set.insert(Elem::new(3, 0)).unwrap();
    assert!(set.contains(3));
    assert!(!set.contains(5));
    set.insert(Elem::new(3, 0)).unwrap_err();
    assert!(set.contains(3));
    assert!(!set.contains(5));
    set.insert(Elem::new(5, 0)).unwrap();
    assert!(set.contains(3));
    assert!(set.contains(5));
}

#[test]
fn inserts_and_removes() {
    let mut set = LockFreeSet::new();
    assert!(set.remove(7).is_none());
    set.insert(Elem::new(7, 0)).unwrap();
    assert_eq!(set.remove(7).unwrap().key(), 7);
    assert!(set.remove(7).is_none());
    set.insert(Elem::new(3, 0)).unwrap();
    set.insert(Elem::new(5, 0)).unwrap();
    assert_eq!(set.remove(5).unwrap().key(), 5);
    assert_eq!(set.remove(3).unwrap().key(), 3);
    assert!(set.remove(3).is_none());
    assert!(set.remove(5).is_none());
}

#[test]
fn inserts_and_reinserts() {
    let mut set = LockFreeSet::new();
    set.insert(Elem::new(9, 0)).unwrap();
    set.insert(Elem::new(7, 0)).unwrap();
    set.insert(Elem::new(0, 0)).unwrap();
    let removed = set.remove(9).unwrap();
    assert!(set.reinsert(removed).is_ok());
    set.insert(Elem::new(9, 0)).unwrap_err();
}

#[test]
fn insert_with() {
    let mut set = LockFreeSet::new();
    set.insert(Elem::new(32, 0)).unwrap();
    set.insert(Elem::new(34, 10)).unwrap();
    set.insert(Elem::new(34, 6)).unwrap_err();
    set.insert_with(Elem::new(34, 6), |_, _| true).updated().unwrap();
    set.insert_with(Elem::new(34, 2), |_, _| false).failed().unwrap();
    assert!(set.insert_with(Elem::new(33, 2), |_, _| true).created());
    set.insert_with(Elem::new(32, 3), |_, _| true).updated().unwrap();
}

#[test]
fn reinsert_with() {
    let mut set = LockFreeSet::new();
    set.insert(Elem::new(32, 0)).unwrap();
    set.insert(Elem::new(34, 10)).unwrap();
    set.insert(Elem::new(34, 6)).unwrap_err();
    let r34 = set.remove(34).unwrap();
    let r32 = set.remove(32).unwrap();

    set.insert(Elem::new(34, 6)).unwrap();
    set.reinsert_with(r34, |_, _| true).updated().unwrap();
    let r32 = set.reinsert_with(r32, |_, _| false).take_failed().unwrap();
    assert!(set.reinsert_with(r32, |_, _| true).created());
}

#[test]
fn insert_remove_round_trip_restores_view() {
    let mut set = LockFreeSet::new();
    set.insert(Elem::new(1, 11)).unwrap();
    set.insert(Elem::new(2, 22)).unwrap();
    set.insert(Elem::new(8, 88)).unwrap();
    set.remove(8).unwrap();
    assert!(set.contains(1));
    assert!(set.contains(2));
    assert!(!set.contains(8));
    assert_eq!(set.get(1).unwrap().meta(), 11);
    assert_eq!(set.get(2).unwrap().meta(), 22);
}

#[test]
fn removed_carries_key_and_meta() {
    let mut set = LockFreeSet::new();
    set.insert(Elem::new(40, 77)).unwrap();
    let removed = set.remove(40).unwrap();
    assert_eq!(removed.key(), 40);
    assert_eq!(removed.meta(), 77);
    assert_eq!(removed.elem(), Elem::new(40, 77));
}

#[test]
fn update_hands_back_prior_record() {
    let mut set = LockFreeSet::new();
    set.insert(Elem::new(34, 10)).unwrap();
    let outcome = set.insert_with(Elem::new(34, 6), |_, _| true);
    let prior = outcome.take_updated().unwrap();
    assert_eq!(prior.key(), 34);
    assert_eq!(prior.meta(), 10);
    assert_eq!(set.get(34).unwrap().meta(), 6);
}

#[test]
fn accept_sees_candidate_and_stored() {
    let mut set = LockFreeSet::new();
    set.insert(Elem::new(5, 50)).unwrap();
    let outcome = set.insert_with(Elem::new(5, 51), |cand, stored| {
        cand.meta == 51 && stored == Some(Elem::new(5, 50))
    });
    assert!(outcome.updated().is_some());
    let outcome = set.insert_with(Elem::new(6, 60), |_, stored| stored.is_none());
    assert!(outcome.created());
}

#[test]
fn remove_with_consults_policy() {
    let mut set = LockFreeSet::new();
    set.insert(Elem::new(12, 3)).unwrap();
    assert!(set.remove_with(12, |_| false).is_none());
    assert!(set.contains(12));
    assert!(set.remove_with(9, |_| true).is_none());
    let removed = set.remove_with(12, |e| e.meta == 3).unwrap();
    assert_eq!(removed.key(), 12);
    assert!(!set.contains(12));
}

#[test]
fn removed_handle_grants_access() {
    let mut set = LockFreeSet::new();
    set.insert(Elem::new(21, 1)).unwrap();
    let mut removed = set.remove(21).unwrap();
    {
        let inner = lockfree_set::Removed::try_as_mut(&mut removed).unwrap();
        inner.meta = 9;
    }
    assert_eq!(removed.meta(), 9);
    let elem = lockfree_set::Removed::try_into(removed).unwrap();
    assert_eq!(elem, Elem::new(21, 9));
}

#[test]
fn guards_pin_present_records() {
    let mut set = LockFreeSet::new();
    assert!(set.get(77).is_none());
    set.insert(Elem::new(77, 7)).unwrap();
    let guard = set.get(77).unwrap();
    assert_eq!(guard.key(), 77);
    assert_eq!(guard.meta(), 7);
    assert_eq!(guard.elem(), Elem::new(77, 7));
}

#[test]
fn hasher_fingerprints_equal_keys_equally() {
    let builder = lockfree_set::HashBuilder::new();
    assert_eq!(builder.fingerprint(42), builder.fingerprint(42));
    let set = LockFreeSet::with_hasher(builder);
    assert_eq!(set.hasher().fingerprint(9), set.hasher().fingerprint(9));
    assert!(!set.contains(9));
}

#[test]
fn deep_collisions_split_and_resolve() {
    // These keys share long low-bit prefixes, forcing deep splits.
    let keys = [0u64, 1u64 << 63, 1u64, 1u64 << 62, (1u64 << 63) | 1, u64::MAX];
    let mut set = LockFreeSet::new();
    for (i, &k) in keys.iter().enumerate() {
        set.insert(Elem::new(k, i as u64)).unwrap();
    }
    for (i, &k) in keys.iter().enumerate() {
        assert!(set.contains(k));
        assert_eq!(set.get(k).unwrap().meta(), i as u64);
    }
    for &k in keys.iter() {
        assert!(set.remove(k).is_some());
        assert!(!set.contains(k));
    }
}

#[test]
fn default_set_is_empty() {
    let set = LockFreeSet::default();
    assert!(!set.contains(0));
    assert!(!set.contains(3));
}
