use cht::map::HashMap;
use cht::HashBuilder;

#[test]
fn single_segment() {
    let mut map = HashMap::with_num_segments(1);

    assert!(map.is_empty());
    assert_eq!(map.len(), 0);

    assert_eq!(map.insert("foo", 5), None);
    assert_eq!(map.get(&"foo"), Some(5));

    assert!(!map.is_empty());
    assert_eq!(map.len(), 1);

    assert_eq!(map.remove(&"foo"), Some(5));
    assert!(map.is_empty());
    assert_eq!(map.len(), 0);
}

#[test]
fn string_keys() {
    let mut map: HashMap<String, u64> = HashMap::with_num_segments(2);
    for i in 0..50u64 {
        assert_eq!(map.insert(format!("key-{}", i), i), None);
    }
    assert_eq!(map.len(), 50);
    for i in 0..50u64 {
        assert_eq!(map.get(&format!("key-{}", i)), Some(i));
    }
    assert_eq!(map.get(&String::from("key-50")), None);
    assert_eq!(map.remove(&String::from("key-7")), Some(7));
    assert_eq!(map.len(), 49);
    assert_eq!(map.get_key_value(&String::from("key-8")), Some((String::from("key-8"), 8)));
}

#[test]
fn default_map_works() {
    let mut map: HashMap<u64, u64> = HashMap::default();
    assert!(map.num_segments() >= 2);
    assert!(map.num_segments().is_power_of_two());
    assert_eq!(map.insert(7, 8), None);
    assert_eq!(map.get(&7), Some(8));
}

#[test]
fn new_uses_power_of_two_segments() {
    let map: HashMap<u64, u64> = HashMap::new();
    assert!(map.num_segments() >= 2);
    assert!(map.num_segments().is_power_of_two());
    assert!(map.is_empty());
}

#[test]
fn num_segments_rounds_up() {
    let map: HashMap<u64, u64> = HashMap::with_num_segments(3);
    assert_eq!(map.num_segments(), 4);
    let map: HashMap<u64, u64> = HashMap::with_num_segments(4);
    assert_eq!(map.num_segments(), 4);
    let map: HashMap<u64, u64> = HashMap::with_num_segments(5);
    assert_eq!(map.num_segments(), 8);
}

#[test]
fn single_segment_routes_everything_to_zero() {
    let map: HashMap<u64, u64> = HashMap::with_num_segments(1);
    for k in 0..1000u64 {
        assert_eq!(map.segment_index(&k), 0);
    }
}

#[test]
fn segment_index_in_range() {
    let map: HashMap<u64, u64> = HashMap::with_num_segments(8);
    for k in 0..1000u64 {
        assert!(map.segment_index(&k) < map.num_segments());
    }
}

#[test]
fn zero_capacity_defers_allocation() {
    let mut map: HashMap<u64, u64> = HashMap::with_num_segments_and_capacity(1, 0);
    assert_eq!(map.capacity(), 0);
    assert_eq!(map.segment_capacity(0), 0);
    assert_eq!(map.insert(1, 1), None);
    assert!(map.capacity() > 0);
}

#[test]
fn disjoint_ranges_across_segments() {
    let mut map: HashMap<u64, u64> = HashMap::with_num_segments(4);
    for i in 0..16u64 {
        for j in (i * 64)..((i + 1) * 64) {
            assert_eq!(map.insert(j, j), None);
        }
    }
    assert_eq!(map.len(), 1024);
    for j in 0..1024u64 {
        assert_eq!(map.get(&j), Some(j));
    }
    assert_eq!(map.get(&1024), None);
}

#[test]
fn repeated_insert_with_or_modify_counts() {
    let mut map: HashMap<u64, u64> = HashMap::with_num_segments(2);
    for _round in 0..8 {
        for _step in 0..1000 {
            map.insert_with_or_modify(0, || 1, |_, v| v + 1);
        }
    }
    assert_eq!(map.get(&0), Some(8000));
}

#[test]
fn sequential_inserts_grow_capacity() {
    let mut map: HashMap<u64, u64> = HashMap::with_num_segments_and_capacity(1, 4);
    for k in 0..1000u64 {
        assert_eq!(map.insert(k, k), None);
    }
    assert_eq!(map.len(), 1000);
    assert!(map.capacity() >= 2000);
    for k in 0..1000u64 {
        assert_eq!(map.get(&k), Some(k));
    }
}

#[test]
fn insert_then_remove_interleaved() {
    let mut map: HashMap<u64, u64> = HashMap::with_num_segments(2);
    for k in 0..10000u64 {
        map.insert(k, k);
        if map.get(&k).is_some() {
            assert_eq!(map.remove(&k), Some(k));
        }
    }
    assert!(map.len() <= 10000);
    for k in 0..10000u64 {
        match map.get(&k) {
            Some(v) => assert_eq!(v, k),
            None => {}
        }
    }
    assert_eq!(map.len(), 0);
}

#[test]
fn remove_if_after_modify_misses_stale_target() {
    let mut map: HashMap<u64, u64> = HashMap::with_num_segments(1);
    map.insert(3, 1);
    map.modify(3, |_, v| v + 1);
    let target = 1u64;
    assert_eq!(map.remove_if(&3, |_, v| *v == target), None);
    let present = map.get(&3).unwrap();
    assert_ne!(present, target);
    assert_eq!(map.remove_if(&3, |_, v| *v == 2), Some(2));
    assert_eq!(map.get(&3), None);
}

#[test]
fn modify_absent_does_not_insert() {
    let mut map: HashMap<u64, u64> = HashMap::with_num_segments(1);
    assert_eq!(map.modify(42, |_, v| v + 1), None);
    assert_eq!(map.get(&42), None);
    assert_eq!(map.len(), 0);
    assert_eq!(map.modify_entry(42, |_, v| v + 1), None);
    assert_eq!(map.modify_and(42, |_, v| v + 1, |v| *v), None);
    assert_eq!(map.modify_entry_and(42, |_, v| v + 1, |_, v| *v), None);
}

#[test]
fn modify_present_updates() {
    let mut map: HashMap<u64, u64> = HashMap::with_num_segments(1);
    map.insert(1, 10);
    assert_eq!(map.modify(1, |_, v| v * 2), Some(10));
    assert_eq!(map.get(&1), Some(20));
    assert_eq!(map.modify_entry(1, |_, v| v + 1), Some((1, 20)));
    assert_eq!(map.get(&1), Some(21));
    assert_eq!(map.modify_and(1, |_, v| v + 1, |v| v + 100), Some(121));
    assert_eq!(map.get(&1), Some(22));
}

#[test]
fn same_key_inserts_return_previous() {
    let mut map: HashMap<u64, u64> = HashMap::with_num_segments(2);
    let mut absent = 0;
    let mut seen = Vec::new();
    for m in 0..8u64 {
        match map.insert(5, m) {
            None => absent += 1,
            Some(prev) => seen.push(prev),
        }
    }
    assert_eq!(absent, 1);
    assert_eq!(seen.len(), 7);
    for (i, prev) in seen.iter().enumerate() {
        assert_eq!(*prev, i as u64);
    }
    assert_eq!(map.len(), 1);
    assert_eq!(map.get(&5), Some(7));
}

#[test]
fn remove_then_reinsert_is_length_neutral() {
    let mut map: HashMap<u64, u64> = HashMap::with_num_segments(1);
    for k in 0..100u64 {
        map.insert(k, k);
    }
    assert_eq!(map.len(), 100);
    assert_eq!(map.remove(&50), Some(50));
    assert_eq!(map.len(), 99);
    assert_eq!(map.insert(50, 500), None);
    assert_eq!(map.len(), 100);
    assert_eq!(map.get(&50), Some(500));
}

#[test]
fn tombstones_keep_probe_chains_intact() {
    let mut map: HashMap<u64, u64> = HashMap::with_num_segments_and_capacity(1, 8);
    for k in 0..8u64 {
        map.insert(k, k);
    }
    for k in 0..4u64 {
        assert_eq!(map.remove(&k), Some(k));
    }
    for k in 4..8u64 {
        assert_eq!(map.get(&k), Some(k));
    }
    for k in 0..4u64 {
        assert_eq!(map.get(&k), None);
        assert_eq!(map.insert(k, k + 100), None);
        assert_eq!(map.get(&k), Some(k + 100));
    }
    assert_eq!(map.len(), 8);
}

#[test]
fn get_variants_project() {
    let mut map: HashMap<u64, u64> = HashMap::with_num_segments(1);
    map.insert(2, 30);
    assert_eq!(map.get_key_value(&2), Some((2, 30)));
    assert_eq!(map.get_and(&2, |v| v + 1), Some(31));
    assert_eq!(map.get_key_value_and(&2, |k, v| k + v), Some(32));
    assert_eq!(map.get_key_value(&9), None);
    assert_eq!(map.get_and(&9, |v| *v), None);
    assert_eq!(map.get_key_value_and(&9, |k, v| k + v), None);
}

#[test]
fn insert_variants_project() {
    let mut map: HashMap<u64, u64> = HashMap::with_num_segments(1);
    assert_eq!(map.insert_entry(4, 40), None);
    assert_eq!(map.insert_entry(4, 41), Some((4, 40)));
    assert_eq!(map.insert_and(4, 42, |prev| prev + 1), Some(42));
    assert_eq!(map.insert_entry_and(4, 43, |k, prev| k + prev), Some(46));
    assert_eq!(map.get(&4), Some(43));
}

#[test]
fn remove_variants_project() {
    let mut map: HashMap<u64, u64> = HashMap::with_num_segments(1);
    map.insert(1, 10);
    map.insert(2, 20);
    map.insert(3, 30);
    map.insert(4, 40);
    assert_eq!(map.remove_entry(&1), Some((1, 10)));
    assert_eq!(map.remove_and(&2, |v| v + 1), Some(21));
    assert_eq!(map.remove_entry_and(&3, |k, v| k + v), Some(33));
    assert_eq!(map.remove_entry_if_and(&4, |_, v| *v == 40, |k, v| k + v), Some(44));
    assert!(map.is_empty());
    assert_eq!(map.remove_entry(&1), None);
    assert_eq!(map.remove_and(&2, |v| *v), None);
}

#[test]
fn remove_if_variants_respect_condition() {
    let mut map: HashMap<u64, u64> = HashMap::with_num_segments(1);
    map.insert(1, 10);
    assert_eq!(map.remove_if(&1, |_, v| *v == 99), None);
    assert_eq!(map.get(&1), Some(10));
    assert_eq!(map.remove_entry_if(&1, |_, v| *v == 99), None);
    assert_eq!(map.remove_if_and(&1, |_, v| *v == 99, |v| *v), None);
    assert_eq!(map.remove_entry_if(&1, |k, _| *k == 1), Some((1, 10)));
    assert_eq!(map.get(&1), None);
    map.insert(2, 20);
    assert_eq!(map.remove_if_and(&2, |_, v| *v == 20, |v| v + 2), Some(22));
    assert!(map.is_empty());
}

#[test]
fn insert_or_modify_variants() {
    let mut map: HashMap<u64, u64> = HashMap::with_num_segments(1);
    assert_eq!(map.insert_or_modify(1, 5, |_, v| v + 1), None);
    assert_eq!(map.get(&1), Some(5));
    assert_eq!(map.insert_or_modify(1, 99, |_, v| v + 1), Some(5));
    assert_eq!(map.get(&1), Some(6));
    assert_eq!(map.insert_or_modify_entry(2, 7, |_, v| v + 1), None);
    assert_eq!(map.insert_or_modify_entry(2, 99, |_, v| v + 1), Some((2, 7)));
    assert_eq!(map.insert_or_modify_and(3, 9, |_, v| v + 1, |v| *v), None);
    assert_eq!(map.insert_or_modify_and(3, 99, |_, v| v + 1, |v| v + 1), Some(10));
    assert_eq!(map.insert_or_modify_entry_and(4, 11, |_, v| v + 1, |_, v| *v), None);
    assert_eq!(map.insert_or_modify_entry_and(4, 99, |_, v| v + 1, |k, v| k + v), Some(15));
}

#[test]
fn insert_with_or_modify_variants() {
    let mut map: HashMap<u64, u64> = HashMap::with_num_segments(1);
    assert_eq!(map.insert_with_or_modify(1, || 5, |_, v| v + 1), None);
    assert_eq!(map.get(&1), Some(5));
    assert_eq!(map.insert_with_or_modify(1, || 99, |_, v| v + 1), Some(5));
    assert_eq!(map.get(&1), Some(6));
    assert_eq!(map.insert_with_or_modify_entry(2, || 7, |_, v| v + 1), None);
    assert_eq!(map.insert_with_or_modify_entry(2, || 99, |_, v| v + 1), Some((2, 7)));
    assert_eq!(map.insert_with_or_modify_and(3, || 9, |_, v| v + 1, |v| *v), None);
    assert_eq!(map.insert_with_or_modify_and(3, || 99, |_, v| v + 1, |v| v + 1), Some(10));
    assert_eq!(map.insert_with_or_modify_entry_and(4, || 11, |_, v| v + 1, |_, v| *v), None);
    assert_eq!(
        map.insert_with_or_modify_entry_and(4, || 99, |_, v| v + 1, |k, v| k + v),
        Some(15)
    );
}

#[test]
fn seeded_hashers_agree_on_content() {
    let mut a: HashMap<u64, u64> = HashMap::with_hasher(HashBuilder::with_seeds(1, 2));
    let mut b: HashMap<u64, u64> =
        HashMap::with_num_segments_and_hasher(4, HashBuilder::with_seeds(3, 4));
    let mut c: HashMap<u64, u64> =
        HashMap::with_capacity_and_hasher(16, HashBuilder::with_seeds(5, 6));
    for k in 0..200u64 {
        a.insert(k, k * 3);
        b.insert(k, k * 3);
        c.insert(k, k * 3);
    }
    for k in 0..200u64 {
        assert_eq!(a.get(&k), Some(k * 3));
        assert_eq!(b.get(&k), Some(k * 3));
        assert_eq!(c.get(&k), Some(k * 3));
    }
    assert_eq!(a.get(&200), None);
    assert_eq!(b.get(&200), None);
    assert_eq!(c.get(&200), None);
}

#[test]
fn with_capacity_holds_without_growth() {
    let mut map: HashMap<u64, u64> = HashMap::with_capacity(64);
    let initial = map.capacity();
    assert!(initial >= 128);
    for k in 0..64u64 {
        map.insert(k, k);
    }
    assert_eq!(map.capacity(), initial);
}

#[test]
fn segment_capacity_reports_each_segment() {
    let map: HashMap<u64, u64> = HashMap::with_num_segments_and_capacity(4, 8);
    for i in 0..map.num_segments() {
        assert_eq!(map.segment_capacity(i), 16);
    }
    assert_eq!(map.capacity(), 16);
}

#[test]
fn mixed_key_widths() {
    let mut m32: HashMap<u32, u64> = HashMap::with_num_segments(2);
    let mut msize: HashMap<usize, u64> = HashMap::with_num_segments(2);
    for k in 0..100u32 {
        assert_eq!(m32.insert(k, k as u64), None);
        assert_eq!(msize.insert(k as usize, k as u64), None);
    }
    assert_eq!(m32.len(), 100);
    assert_eq!(msize.len(), 100);
    assert_eq!(m32.get(&42), Some(42));
    assert_eq!(msize.get(&42), Some(42));
}

#[test]
fn can_insert_is_true_for_small_maps() {
    let mut map: HashMap<u64, u64> = HashMap::with_num_segments(1);
    assert!(map.can_insert());
    for k in 0..100u64 {
        map.insert(k, k);
        assert!(map.can_insert());
    }
}

#[test]
fn hash_spreads_sequential_keys() {
    let map: HashMap<u64, u64> = HashMap::with_num_segments(4);
    let mut seen = vec![false; map.num_segments()];
    for k in 0..64u64 {
        seen[map.segment_index(&k)] = true;
    }
    assert!(seen.iter().filter(|s| **s).count() > 1);
}

#[test]
fn segment_count_is_constant_across_operations() {
    let mut map: HashMap<u64, u64> = HashMap::with_num_segments(4);
    let n = map.num_segments();
    for k in 0..500u64 {
        map.insert(k, k);
    }
    assert_eq!(map.num_segments(), n);
    for k in 0..250u64 {
        map.remove(&k);
    }
    map.modify(300, |_, v| v + 1);
    assert_eq!(map.num_segments(), n);
}
