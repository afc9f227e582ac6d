use clockpro_cache::ClockProCache;
use clockpro_cache::TokenRing;

#[test]
fn constructor_bounds() {
    assert!(ClockProCache::<u64, u64>::new(2).is_err());
    assert!(ClockProCache::<u64, u64>::new(3).is_ok());
    assert!(ClockProCache::<u64, u64>::new(0).is_err());
}

#[test]
fn constructor_with_test_capacity() {
    assert!(ClockProCache::<u64, u64>::new_with_test_capacity(2, 10).is_err());
    assert!(ClockProCache::<u64, u64>::new_with_test_capacity(3, 0).is_ok());
}

#[test]
fn empty_cache_has_no_keys() {
    let mut c = ClockProCache::<u64, u64>::new(4).unwrap();
    assert!(!c.contains_key(&1));
    assert_eq!(c.get(&1), None);
}

#[test]
fn three_residents() {
    let mut c = ClockProCache::<u64, u64>::new(3).unwrap();
    assert!(c.insert(1, 10));
    assert!(c.insert(2, 20));
    assert!(c.insert(3, 30));
    assert_eq!(c.get(&1), Some(&10));
    assert_eq!(c.get(&2), Some(&20));
    assert_eq!(c.get(&3), Some(&30));
}

#[test]
fn eviction_keeps_three_residents() {
    let mut c = ClockProCache::<u64, u64>::new(3).unwrap();
    c.insert(1, 10);
    c.insert(2, 20);
    c.insert(3, 30);
    c.insert(4, 40);
    let resident = [1u64, 2, 3, 4].iter().filter(|k| c.contains_key(k)).count();
    assert_eq!(resident, 3);
    assert!(c.contains_key(&4));
}

#[test]
fn overwrite_is_not_new_and_wins() {
    let mut c = ClockProCache::<u64, u64>::new(3).unwrap();
    assert!(c.insert(7, 1));
    assert!(!c.insert(7, 2));
    assert_eq!(c.get(&7), Some(&2));
}

#[test]
fn referenced_key_survives_scan() {
    let mut c = ClockProCache::<u64, u64>::new(3).unwrap();
    c.insert(1, 11);
    c.get(&1);
    c.get(&1);
    c.insert(2, 22);
    c.insert(3, 33);
    c.insert(4, 44);
    c.insert(5, 55);
    assert!(c.contains_key(&1));
}

#[test]
fn revived_key_is_resident_with_new_value() {
    let mut c = ClockProCache::<u64, u64>::new(3).unwrap();
    c.insert(1, 10);
    c.insert(2, 20);
    c.insert(3, 30);
    c.insert(4, 40);
    let evicted: Vec<u64> = [1u64, 2, 3].iter().copied().filter(|k| !c.contains_key(k)).collect();
    assert_eq!(evicted.len(), 1);
    let k = evicted[0];
    assert!(!c.insert(k, 99));
    assert_eq!(c.get(&k), Some(&99));
    assert!(c.contains_key(&k));
}

#[test]
fn contains_key_does_not_refresh() {
    let mut c = ClockProCache::<u64, u64>::new(3).unwrap();
    c.insert(1, 11);
    assert!(c.contains_key(&1));
    assert!(!c.contains_key(&9));
}

#[test]
fn bulk_insert_fills_to_capacity() {
    let mut c = ClockProCache::<u64, u64>::new_with_test_capacity(100, 100).unwrap();
    for i in 0..10_000u64 {
        c.insert(i, i);
    }
    let resident = (0..10_000u64).filter(|k| c.contains_key(k)).count();
    assert_eq!(resident, 100);
}

#[test]
fn bulk_insert_with_reuse() {
    let mut c = ClockProCache::<u64, u64>::new(8).unwrap();
    for round in 0..50u64 {
        for k in 0..12u64 {
            c.insert(k, k + round);
        }
    }
    let resident = (0..12u64).filter(|k| c.contains_key(k)).count();
    assert!(resident <= 8);
    assert!(resident >= 1);
}

#[test]
fn string_values_survive() {
    let mut c = ClockProCache::<u32, String>::new(4).unwrap();
    c.insert(1, String::from("one"));
    c.insert(2, String::from("two"));
    assert_eq!(c.get(&1).map(|s| s.as_str()), Some("one"));
    assert_eq!(c.get(&2).map(|s| s.as_str()), Some("two"));
}

#[test]
fn ring_order_wraps() {
    let mut r = TokenRing::with_capacity(4);
    let a = r.insert_after(0);
    let b = r.insert_after(a);
    let c = r.insert_after(b);
    assert_eq!(r.len(), 3);
    let n1 = r.next_for_token(a);
    let n2 = r.next_for_token(n1);
    let n3 = r.next_for_token(n2);
    assert_eq!(n3, a);
    assert_eq!(r.prev_for_token(n1), a);
    r.remove(c);
    assert_eq!(r.len(), 2);
}

#[test]
fn ring_tokens_stable_across_removals() {
    let mut r = TokenRing::with_capacity(8);
    let a = r.insert_after(0);
    let b = r.insert_after(a);
    let c = r.insert_after(b);
    r.remove(b);
    // the untouched tokens keep naming their slots and stay linked
    assert_eq!(r.len(), 2);
    assert_eq!(r.next_for_token(a), c);
    assert_eq!(r.prev_for_token(a), c);
}

#[test]
fn get_mut_edits_in_place() {
    let mut c = ClockProCache::<u64, u64>::new(3).unwrap();
    c.insert(1, 10);
    if let Some(v) = c.get_mut(&1) {
        *v = 77;
    } else {
        panic!("expected a resident entry");
    }
    assert_eq!(c.get(&1), Some(&77));
    assert_eq!(c.get_mut(&9), None);
}
