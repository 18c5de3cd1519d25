use naive_btree::Btree;

const DATA: [(i32, i32); 24] = [(1, 8), (4, 9), (6, 2), (8, 10), (11, 11), (13, 3), (14, 12),
    (16, 13), (17, 1), (19, 14), (22, 15), (23, 4), (27, 16), (34, 17), (35, 5), (38, 18),
    (45, 19), (47, 6), (49, 20), (53, 21), (55, 7), (65, 22), (74, 23), (79, 24)];

fn collect(t: &Btree<i32>) -> Vec<(i32, i32)> {
    let mut out = Vec::new();
    let mut it = t.iter();
    while let Some(e) = it.next() {
        out.push(*e);
    }
    out
}

#[test]
fn split_boundary() {
    // order 5: the initial leaf fills up to four entries; the fifth key
    // triggers exactly one split, and the sixth lands in the right leaf
    // without another
    let mut t = Btree::new();
    t.insert(1, 8);
    t.insert(4, 9);
    t.insert(6, 2);
    t.insert(8, 10);
    assert!(t.check_invariants());
    assert_eq!(t.root_keys(), vec![1, 4, 6, 8]);
    assert_eq!(t.child_keys(0), None);

    t.insert(11, 11);
    assert!(t.check_invariants());
    assert_eq!(t.root_keys(), vec![6]);
    assert_eq!(t.child_keys(0).unwrap(), vec![1, 4]);
    assert_eq!(t.child_keys(1).unwrap(), vec![8, 11]);

    t.insert(13, 3);
    assert!(t.check_invariants());
    assert_eq!(t.root_keys(), vec![6]);
    assert_eq!(t.child_keys(0).unwrap(), vec![1, 4]);
    assert_eq!(t.child_keys(1).unwrap(), vec![8, 11, 13]);
}

#[test]
fn ascending_iteration_of_24_keys() {
    let mut t = Btree::new();
    for (k, v) in DATA {
        t.insert(k, v);
        assert!(t.check_invariants());
    }
    let got = collect(&t);
    let keys: Vec<i32> = got.iter().map(|e| e.0).collect();
    assert_eq!(keys, vec![1, 4, 6, 8, 11, 13, 14, 16, 17, 19, 22, 23, 27, 34, 35, 38, 45, 47,
        49, 53, 55, 65, 74, 79]);
    for (k, v) in DATA {
        assert!(got.contains(&(k, v)));
    }
}

#[test]
fn upsert_returns_prior_value_and_keeps_size() {
    let mut t = Btree::new();
    assert_eq!(t.insert(10, 1), None);
    assert_eq!(collect(&t).len(), 1);
    assert_eq!(t.insert(20, 2), None);
    assert_eq!(collect(&t).len(), 2);
    assert_eq!(t.insert(10, 3), Some(1));
    assert_eq!(collect(&t).len(), 2);
    assert_eq!(t.get(&10), Some(&3));
    assert!(t.check_invariants());
}

#[test]
fn remove_returns_what_get_saw() {
    let mut t = Btree::new();
    for (k, v) in DATA {
        t.insert(k, v);
    }
    let before = *t.get(&35).unwrap();
    assert_eq!(t.remove(&35), Some((35, before)));
    assert_eq!(t.get(&35), None);
    assert_eq!(t.remove(&35), None);
    assert!(t.check_invariants());
}

#[test]
fn remove_absent_leaves_tree_unchanged() {
    let mut t = Btree::new();
    for (k, v) in DATA {
        t.insert(k, v);
    }
    let before = collect(&t);
    assert_eq!(t.remove(&1000), None);
    assert_eq!(collect(&t), before);
    assert!(t.check_invariants());
}

#[test]
fn drain_ascending_and_descending() {
    let mut up = Btree::new();
    let mut down = Btree::new();
    for (k, v) in DATA {
        up.insert(k, v);
        down.insert(k, v);
    }
    let mut keys: Vec<i32> = DATA.iter().map(|e| e.0).collect();
    keys.sort();
    for k in keys.iter() {
        assert!(up.remove(k).is_some());
        assert!(up.check_invariants());
    }
    for k in keys.iter().rev() {
        assert!(down.remove(k).is_some());
        assert!(down.check_invariants());
    }
    assert!(up.is_empty());
    assert!(down.is_empty());
    assert_eq!(up.iter().next(), None);
    assert_eq!(down.iter().next(), None);
    assert_eq!(up.root_keys(), Vec::<i32>::new());
    assert_eq!(up.child_keys(0), None);
}

#[test]
fn round_trip_of_inserts_and_removals() {
    let mut t = Btree::new();
    for (k, v) in DATA {
        t.insert(k, v);
    }
    // remove a proper subset in a scrambled order
    for k in [55, 1, 27, 79, 13, 22, 45, 6] {
        assert!(t.remove(&k).is_some());
        assert!(t.check_invariants());
    }
    let expected: Vec<(i32, i32)> = DATA
        .iter()
        .copied()
        .filter(|(k, _)| ![55, 1, 27, 79, 13, 22, 45, 6].contains(k))
        .collect();
    assert_eq!(collect(&t), expected);
}

#[test]
fn empty_tree_behaviour() {
    let mut t: Btree<i32> = Btree::new();
    assert!(t.is_empty());
    assert!(t.check_invariants());
    assert_eq!(t.get(&0), None);
    assert_eq!(t.get_mut(&0), None);
    assert_eq!(t.remove(&0), None);
    assert_eq!(t.iter().next(), None);
    let mut im = t.iter_mut();
    assert!(im.next(&mut t).is_none());
}

#[test]
fn extreme_keys() {
    let mut t = Btree::new();
    t.insert(i32::MAX, 1);
    t.insert(i32::MIN, 2);
    t.insert(0, 3);
    assert!(t.check_invariants());
    let got = collect(&t);
    assert_eq!(got, vec![(i32::MIN, 2), (0, 3), (i32::MAX, 1)]);
    assert_eq!(t.remove(&i32::MIN), Some((i32::MIN, 2)));
    assert!(t.check_invariants());
}

#[test]
fn deep_tree_grows_and_drains() {
    let mut t = Btree::new();
    let mut n: usize = 0;
    // a spread-out insertion order that exercises splits at several levels
    for step in [7i32, 11, 3, 1] {
        let mut k: i32 = step;
        while k < 200 {
            if t.insert(k, k * 10).is_none() {
                n += 1;
            }
            assert!(t.check_invariants());
            k += step;
        }
    }
    assert_eq!(collect(&t).len(), n);
    let keys: Vec<i32> = collect(&t).iter().map(|e| e.0).collect();
    let mut sorted = keys.clone();
    sorted.sort();
    assert_eq!(keys, sorted);
    for k in keys {
        assert!(t.remove(&k).is_some());
        assert!(t.check_invariants());
    }
    assert!(t.is_empty());
}

#[test]
fn mutable_iteration_updates_in_place() {
    let mut t = Btree::new();
    for (k, v) in DATA {
        t.insert(k, v);
    }
    let mut it = t.iter_mut();
    let mut yielded: Vec<i32> = Vec::new();
    while let Some((k, v)) = it.next(&mut t) {
        yielded.push(k);
        *v += 100;
    }
    let mut expected_keys: Vec<i32> = DATA.iter().map(|e| e.0).collect();
    expected_keys.sort();
    assert_eq!(yielded, expected_keys);
    for (k, v) in DATA {
        assert_eq!(t.get(&k), Some(&(v + 100)));
    }
    assert!(t.check_invariants());
}
