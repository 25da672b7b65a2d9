use hashmap_nz64::map::internal::{allocation_info, num_bytes, num_slots};
use hashmap_nz64::HashMapNZ64;

fn load<A>(t: &HashMapNZ64<A>) -> f64 {
    let n = num_slots(t);
    if n == 0 {
        return 0.0;
    }
    (t.len() as f64) / (n as f64)
}

#[test]
fn foo() {
    let mut t = HashMapNZ64::<u64>::new();

    for i in 1..=100u64 {
        t.insert(i, 10 * i);
    }

    let first = load(&t);
    assert_eq!(first, 0.3787878787878788);

    for &key in t.sorted_keys().iter() {
        assert!(t.contains_key(key));
    }

    for i in 1..=100u64 {
        if i & 1 == 0 {
            assert!(t.remove(i).is_some());
        }
    }

    let second = load(&t);
    assert_eq!(second, 0.1893939393939394);
    assert_eq!(second * 2.0, first);

    for &key in t.sorted_keys().iter() {
        assert!(t.contains_key(key));
    }

    let items: Vec<(u64, u64)> = t.items_sorted_by_key().iter().map(|&(k, v)| (k, *v)).collect();
    let expected: Vec<(u64, u64)> = (1..=100u64).filter(|k| k & 1 == 1).map(|k| (k, 10 * k)).collect();
    assert_eq!(items, expected);
}

#[test]
fn test_keys() {
    let mut t = HashMapNZ64::<u64>::new();

    let keys = [10u64, 5, 100, 13, 1000, 17, 10000];

    for &key in keys.iter() {
        t.insert(key, key - 1);
    }

    let items: Vec<(u64, u64)> = t.items_sorted_by_key().iter().map(|&(k, v)| (k, *v)).collect();
    assert_eq!(
        items,
        vec![(5, 4), (10, 9), (13, 12), (17, 16), (100, 99), (1000, 999), (10000, 9999)]
    );
}

#[test]
fn test_basic() {
    let mut t = HashMapNZ64::<u64>::new();

    let key = 13u64;

    assert_eq!(t.len(), 0);
    assert_eq!(t.is_empty(), true);
    assert_eq!(t.contains_key(key), false);
    assert_eq!(t.get(key), None);
    assert_eq!(t.get_mut(key), None);
    assert_eq!(t.insert(key, 42), None);
    assert_eq!(t.len(), 1);
    assert_eq!(t.is_empty(), false);
    assert_eq!(t.contains_key(key), true);
    assert_eq!(t.get(key), Some(&42));
    assert_eq!(t.get_mut(key), Some(&mut 42));
    assert_eq!(t.remove(key), Some(42));
    assert_eq!(t.len(), 0);
    assert_eq!(t.is_empty(), true);
    assert_eq!(t.contains_key(key), false);
    assert_eq!(t.get(key), None);
    assert_eq!(t.get_mut(key), None);
}

#[test]
fn insert_returns_previous_value() {
    let mut t = HashMapNZ64::<u64>::new();
    assert_eq!(t.insert(7, 1), None);
    assert_eq!(t.insert(7, 2), Some(1));
    assert_eq!(t.insert(7, 3), Some(2));
    assert_eq!(t.len(), 1);
    assert_eq!(t.get(7), Some(&3));
}

#[test]
fn get_mut_writes_through() {
    let mut t = HashMapNZ64::<String>::new();
    t.insert(5, String::from("a"));
    t.insert(6, String::from("b"));
    if let Some(v) = t.get_mut(5) {
        v.push('z');
    }
    assert_eq!(t.get(5).map(|s| s.as_str()), Some("az"));
    assert_eq!(t.get(6).map(|s| s.as_str()), Some("b"));
    assert_eq!(t.len(), 2);
}

#[test]
fn remove_absent_key_changes_nothing() {
    let mut t = HashMapNZ64::<u64>::new();
    assert_eq!(t.remove(3), None);
    t.insert(3, 30);
    assert_eq!(t.remove(4), None);
    assert_eq!(t.len(), 1);
    assert_eq!(t.get(3), Some(&30));
}

#[test]
fn extreme_keys() {
    let mut t = HashMapNZ64::<u64>::new();
    t.insert(1, 1);
    t.insert(u64::MAX, 2);
    t.insert(1 << 63, 3);
    assert_eq!(t.get(1), Some(&1));
    assert_eq!(t.get(u64::MAX), Some(&2));
    assert_eq!(t.get(1 << 63), Some(&3));
    assert_eq!(t.sorted_keys(), vec![1, 1 << 63, u64::MAX]);
}

#[test]
fn many_keys_survive_growth() {
    let mut t = HashMapNZ64::<u64>::new();
    let mut growths = 0;
    let mut last = num_slots(&t);
    for i in 1..=20_000u64 {
        let k = i.wrapping_mul(0x9e37_79b9_7f4a_7c15) | 1;
        t.insert(k, i);
        let n = num_slots(&t);
        if n != last {
            growths += 1;
            last = n;
        }
    }
    assert!(growths >= 2);
    assert_eq!(t.len(), 20_000);
    for i in 1..=20_000u64 {
        let k = i.wrapping_mul(0x9e37_79b9_7f4a_7c15) | 1;
        assert_eq!(t.get(k), Some(&i));
    }
    for i in 1..=10_000u64 {
        let k = i.wrapping_mul(0x9e37_79b9_7f4a_7c15) | 1;
        assert_eq!(t.remove(k), Some(i));
    }
    assert_eq!(t.len(), 10_000);
    for i in 1..=20_000u64 {
        let k = i.wrapping_mul(0x9e37_79b9_7f4a_7c15) | 1;
        assert_eq!(t.contains_key(k), i > 10_000);
    }
}

#[test]
fn agrees_with_a_reference_list() {
    let mut t = HashMapNZ64::<u64>::new();
    let mut model: Vec<(u64, u64)> = Vec::new();
    let mut x = 0x1234_5678_9abc_def1u64;
    for step in 0..5000u64 {
        x ^= x << 13;
        x ^= x >> 7;
        x ^= x << 17;
        let key = (x % 300) + 1;
        let at = model.iter().position(|&(k, _)| k == key);
        match x % 3 {
            0 => {
                let prev = t.insert(key, step);
                let want = at.map(|i| model[i].1);
                assert_eq!(prev, want);
                match at {
                    Some(i) => model[i].1 = step,
                    None => model.push((key, step)),
                }
            }
            1 => {
                let got = t.remove(key);
                let want = at.map(|i| model.remove(i).1);
                assert_eq!(got, want);
            }
            _ => {
                assert_eq!(t.get(key).copied(), at.map(|i| model[i].1));
                assert_eq!(t.contains_key(key), at.is_some());
            }
        }
        assert_eq!(t.len(), model.len());
    }
}

#[test]
fn load_stays_below_half() {
    let mut t = HashMapNZ64::<()>::new();
    for i in 1..=5000u64 {
        t.insert(i * 7919, ());
        assert!(2 * t.len() < num_slots(&t));
    }
}

#[test]
fn clear_keeps_slots_and_reset_releases_them() {
    let mut t = HashMapNZ64::<u64>::new();
    for i in 1..=50u64 {
        t.insert(i, i);
    }
    let slots = num_slots(&t);
    assert!(slots > 0);
    t.clear();
    assert_eq!(t.len(), 0);
    assert!(t.is_empty());
    assert_eq!(num_slots(&t), slots);
    for i in 1..=50u64 {
        assert!(!t.contains_key(i));
    }
    t.insert(3, 4);
    assert_eq!(t.get(3), Some(&4));
    assert_eq!(t.len(), 1);
    t.reset();
    assert_eq!(t.len(), 0);
    assert_eq!(num_slots(&t), 0);
    assert!(!t.contains_key(3));
    t.insert(9, 9);
    assert_eq!(num_slots(&t), 24);
}

#[test]
fn keys_lists_every_key_once() {
    let mut t = HashMapNZ64::<u64>::new();
    assert!(t.keys().is_empty());
    for i in 1..=300u64 {
        t.insert(i * 3, i);
    }
    let mut keys = t.keys();
    assert_eq!(keys.len(), t.len());
    keys.sort();
    keys.dedup();
    assert_eq!(keys, (1..=300u64).map(|i| i * 3).collect::<Vec<_>>());
}

#[test]
fn sorted_keys_of_empty_map() {
    let t = HashMapNZ64::<u64>::new();
    assert!(t.sorted_keys().is_empty());
    assert!(t.items_sorted_by_key().is_empty());
}

#[test]
fn first_table_has_sixteen_core_and_eight_tail_slots() {
    let mut t = HashMapNZ64::<u64>::new();
    assert_eq!(num_slots(&t), 0);
    assert_eq!(num_bytes(&t), 0);
    assert_eq!(allocation_info(&t), None);
    t.insert(1, 1);
    assert_eq!(num_slots(&t), 24);
    let slot = std::mem::size_of::<u64>() + std::mem::size_of::<Option<u64>>();
    assert_eq!(num_bytes(&t), 24 * slot);
    assert_eq!(allocation_info(&t), Some((24 * slot, std::mem::align_of::<u64>())));
    for i in 2..=7u64 {
        t.insert(i, i);
    }
    assert_eq!(num_slots(&t), 24);
    t.insert(8, 8);
    assert_eq!(num_slots(&t), 40);
}

#[test]
fn items_sorted_by_key_mut_writes_through() {
    let mut t = HashMapNZ64::<u64>::new();
    for k in [30u64, 10, 20].iter() {
        t.insert(*k, *k);
    }
    {
        let items = t.items_sorted_by_key_mut();
        let keys: Vec<u64> = items.iter().map(|(k, _)| *k).collect();
        assert_eq!(keys, vec![10, 20, 30]);
        for (k, v) in items {
            *v = k * 100;
        }
    }
    assert_eq!(t.get(10), Some(&1000));
    assert_eq!(t.get(20), Some(&2000));
    assert_eq!(t.get(30), Some(&3000));
}

#[test]
fn capacity_limit_depends_on_value_size() {
    let small = HashMapNZ64::<u8>::capacity_limit();
    let large = HashMapNZ64::<[u64; 16]>::capacity_limit();
    assert!(small > large);
    assert!(large > 1_000_000);
}
