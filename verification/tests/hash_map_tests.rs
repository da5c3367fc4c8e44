use arceos_core::hash_map::HashMap;

#[test]
fn new_map_is_empty() {
    let m: HashMap<u32> = HashMap::new();
    assert_eq!(m.len(), 0);
    assert!(m.is_empty());
    assert_eq!(m.get(&7), None);
    assert!(!m.contains_key(&7));
    let d: HashMap<u32> = HashMap::default();
    assert!(d.is_empty());
}

#[test]
fn insert_then_get() {
    let mut m = HashMap::new();
    assert_eq!(m.insert(1, "one"), None);
    assert_eq!(m.insert(2, "two"), None);
    assert_eq!(m.get(&1), Some(&"one"));
    assert_eq!(m.get(&2), Some(&"two"));
    assert_eq!(m.get(&3), None);
    assert_eq!(m.len(), 2);
    assert!(!m.is_empty());
    assert!(m.contains_key(&2));
}

#[test]
fn insert_existing_key_replaces_value() {
    let mut m = HashMap::new();
    assert_eq!(m.insert(5, 50), None);
    assert_eq!(m.insert(5, 55), Some(50));
    assert_eq!(m.get(&5), Some(&55));
    assert_eq!(m.len(), 1);
}

#[test]
fn colliding_keys_share_a_chain() {
    // 0, 16 and 32 all land in bucket 5 of a table of 16 buckets.
    let mut m = HashMap::new();
    m.insert(0, 'a');
    m.insert(16, 'b');
    m.insert(32, 'c');
    assert_eq!(m.get(&0), Some(&'a'));
    assert_eq!(m.get(&16), Some(&'b'));
    assert_eq!(m.get(&32), Some(&'c'));
    assert_eq!(m.remove(&16), Some('b'));
    assert_eq!(m.get(&16), None);
    assert_eq!(m.get(&0), Some(&'a'));
    assert_eq!(m.get(&32), Some(&'c'));
    assert_eq!(m.remove(&0), Some('a'));
    assert_eq!(m.get(&32), Some(&'c'));
    assert_eq!(m.len(), 1);
}

#[test]
fn remove_missing_key_is_none() {
    let mut m = HashMap::new();
    m.insert(1, 1);
    assert_eq!(m.remove(&2), None);
    assert_eq!(m.len(), 1);
    assert_eq!(m.remove(&1), Some(1));
    assert_eq!(m.remove(&1), None);
    assert!(m.is_empty());
}

#[test]
fn get_mut_changes_the_value() {
    let mut m = HashMap::new();
    m.insert(3, 30);
    if let Some(v) = m.get_mut(&3) {
        *v += 1;
    }
    assert_eq!(m.get(&3), Some(&31));
    assert!(m.get_mut(&4).is_none());
}

#[test]
fn clear_removes_everything() {
    let mut m = HashMap::new();
    for k in 0..10u64 {
        m.insert(k, k * 2);
    }
    m.clear();
    assert!(m.is_empty());
    for k in 0..10u64 {
        assert_eq!(m.get(&k), None);
    }
    m.insert(4, 8);
    assert_eq!(m.get(&4), Some(&8));
}

#[test]
fn growth_keeps_every_pair() {
    let mut m = HashMap::new();
    for k in 0..1000u64 {
        assert_eq!(m.insert(k, k + 1), None);
    }
    assert_eq!(m.len(), 1000);
    for k in 0..1000u64 {
        assert_eq!(m.get(&k), Some(&(k + 1)));
    }
}

#[test]
fn small_capacity_grows() {
    let mut m = HashMap::with_capacity(1);
    m.insert(10, 100);
    m.insert(20, 200);
    m.insert(30, 300);
    assert_eq!(m.get(&10), Some(&100));
    assert_eq!(m.get(&20), Some(&200));
    assert_eq!(m.get(&30), Some(&300));
    assert_eq!(m.len(), 3);
}

#[test]
fn iter_goes_bucket_after_bucket_in_chain_order() {
    let mut m = HashMap::new();
    // 1 lands in bucket 4; 0 and then 16 in bucket 5.
    m.insert(16, 'b');
    m.insert(1, 'x');
    m.insert(0, 'a');
    let mut it = m.iter();
    assert_eq!(it.next(), Some((&1, &'x')));
    assert_eq!(it.next(), Some((&16, &'b')));
    assert_eq!(it.next(), Some((&0, &'a')));
    assert_eq!(it.next(), None);
    assert_eq!(it.next(), None);
}

#[test]
fn iter_yields_each_pair_once() {
    let mut m = HashMap::new();
    for k in 0..100u64 {
        m.insert(k * 7, k);
    }
    let mut seen = vec![false; 100];
    let mut it = m.iter();
    let mut n = 0;
    while let Some((k, v)) = it.next() {
        assert_eq!(*k, *v * 7);
        assert!(!seen[*v as usize]);
        seen[*v as usize] = true;
        n += 1;
    }
    assert_eq!(n, 100);
}

#[test]
fn iter_of_empty_map() {
    let m: HashMap<u8> = HashMap::new();
    let mut it = m.iter();
    assert_eq!(it.next(), None);
}

#[test]
fn index_reads_and_writes_present_keys() {
    let mut m = HashMap::new();
    m.insert(9, 90);
    assert_eq!(*m.index(&9), 90);
    *m.index_mut(&9) = 99;
    assert_eq!(*m.index(&9), 99);
    assert_eq!(m.len(), 1);
}

#[test]
fn a_new_key_goes_to_the_end_of_its_chain() {
    let mut m = HashMap::new();
    m.insert(0, 'a');
    m.insert(16, 'b');
    m.insert(32, 'c');
    m.insert(16, 'B');
    let mut it = m.iter();
    assert_eq!(it.next(), Some((&0, &'a')));
    assert_eq!(it.next(), Some((&16, &'B')));
    assert_eq!(it.next(), Some((&32, &'c')));
    assert_eq!(it.next(), None);
}

#[test]
fn remove_keeps_the_order_of_the_rest() {
    let mut m = HashMap::new();
    m.insert(0, 'a');
    m.insert(16, 'b');
    m.insert(32, 'c');
    m.remove(&16);
    let mut it = m.iter();
    assert_eq!(it.next(), Some((&0, &'a')));
    assert_eq!(it.next(), Some((&32, &'c')));
    assert_eq!(it.next(), None);
}

#[test]
fn growth_from_one_bucket_keeps_every_pair() {
    let mut m = HashMap::with_capacity(1);
    for k in 0..50u64 {
        m.insert(k, k);
        assert_eq!(m.len() as u64, k + 1);
    }
    for k in 0..50u64 {
        assert_eq!(m.get(&k), Some(&k));
    }
    let mut n = 0;
    let mut it = m.iter();
    while it.next().is_some() {
        n += 1;
    }
    assert_eq!(n, 50);
}

#[test]
fn debug_text_lists_pairs_in_iteration_order() {
    let mut m = HashMap::new();
    assert_eq!(m.to_debug_string(), "{}");
    m.insert(0, "a");
    m.insert(16, "b");
    m.insert(1, "x");
    assert_eq!(m.to_debug_string(), "{1: \"x\", 0: \"a\", 16: \"b\"}");
    let mut n = HashMap::new();
    n.insert(1234567890123, 5u8);
    assert_eq!(n.to_debug_string(), "{1234567890123: 5}");
}
