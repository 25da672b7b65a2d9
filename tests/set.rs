use hashmap_nz64::{HashSetNZ64, Rng};

#[test]
fn set_insert_reports_earlier_membership() {
    let mut s = HashSetNZ64::new();
    assert!(s.is_empty());
    assert_eq!(s.insert(4), false);
    assert_eq!(s.insert(4), true);
    assert_eq!(s.len(), 1);
    assert!(s.contains(4));
    assert!(!s.contains(5));
}

#[test]
fn set_remove_reports_membership() {
    let mut s = HashSetNZ64::new();
    s.insert(9);
    assert_eq!(s.remove(8), false);
    assert_eq!(s.remove(9), true);
    assert_eq!(s.remove(9), false);
    assert!(s.is_empty());
}

#[test]
fn set_iter_yields_each_member_once() {
    let mut g = Rng::new(77);
    let mut s = HashSetNZ64::new_seeded(&mut g);
    for i in 1..=500u64 {
        s.insert(i * i);
    }
    let mut it = s.iter();
    assert_eq!(it.size_hint(), (500, Some(500)));
    let mut seen = Vec::new();
    while let Some(k) = it.next() {
        seen.push(k);
    }
    assert_eq!(it.next(), None);
    assert_eq!(it.size_hint(), (0, Some(0)));
    assert_eq!(seen.len(), 500);
    seen.sort();
    assert_eq!(seen, (1..=500u64).map(|i| i * i).collect::<Vec<_>>());
}

#[test]
fn set_clear_and_reset() {
    let mut s = HashSetNZ64::new();
    for i in 1..=20u64 {
        s.insert(i);
    }
    s.clear();
    assert_eq!(s.len(), 0);
    assert!(!s.contains(1));
    s.insert(2);
    assert!(s.contains(2));
    s.reset();
    assert!(s.is_empty());
    assert!(!s.contains(2));
    assert!(s.iter().next().is_none());
}

#[test]
fn set_sorted_keys() {
    let mut s = HashSetNZ64::new();
    for k in [9u64, 3, 27, 1].iter() {
        s.insert(*k);
    }
    assert_eq!(s.sorted_keys(), vec![1, 3, 9, 27]);
}
