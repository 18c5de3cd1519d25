use naive_btree::Btree;

const DATA: [(i32, i32); 24] = [(1, 8), (4, 9), (6, 2), (8, 10), (11, 11), (13, 3), (14, 12),
    (16, 13), (17, 1), (19, 14), (22, 15), (23, 4), (27, 16), (34, 17), (35, 5), (38, 18),
    (45, 19), (47, 6), (49, 20), (53, 21), (55, 7), (65, 22), (74, 23), (79, 24)];

fn init_test() -> Btree<i32> {
    let mut btree = Btree::new();
    DATA.iter().for_each(|(a, b)| {
        btree.insert(*a, *b);
    });
    btree
}

#[test]
fn read_works() {
    let btree_example = init_test();

    DATA.iter().for_each(|(a, b)| assert_eq!(btree_example.get(a).unwrap(), b));

    assert!(btree_example.get(&5).is_none(), "found a value that does not exist");
}

#[test]
fn write_works() {
    let mut btree_example = init_test();
    *btree_example.get_mut(&55).unwrap() = -7;
    assert_eq!(*btree_example.get(&55).unwrap(), -7);

    *btree_example.get_mut(&45).unwrap() = -19;
    assert_eq!(*btree_example.get(&45).unwrap(), -19);
}

#[test]
fn iter_works() {
    let btree0: Btree<i32> = Btree::new();
    let mut iter0 = btree0.iter();
    assert_eq!(iter0.next(), None);
    assert_eq!(iter0.next(), None);

    let btree = init_test();
    let mut it = btree.iter();
    while let Some(e) = it.next() {
        println!("({}, {}),", e.0, e.1);
    }
}

#[test]
fn iter_mut_works() {
    let mut btree = init_test();
    let mut it = btree.iter_mut();
    while let Some((_, v)) = it.next(&mut btree) {
        *v = -(*v);
    }

    let mut seen: Vec<(i32, i32)> = Vec::new();
    let mut rd = btree.iter();
    while let Some(e) = rd.next() {
        seen.push(*e);
    }
    assert_eq!(seen.len(), DATA.len());
    DATA.iter().zip(seen.iter()).for_each(|((_, v1), (_, v2))| assert_eq!(*v1, -(*v2)));
}

#[test]
fn remove_work() {
    let mut btree = init_test();

    for (key, value) in DATA {
        let (rem_key, rem_value) = btree.remove(&key).expect("the removed entry must come back out");

        assert_eq!(key, rem_key);
        assert_eq!(value, rem_value);

        assert!(btree.get(&key).is_none(), "still found after removal");
    }
}

#[test]
fn reverse_remove_work() {
    let mut btree = init_test();
    DATA.iter().rev().for_each(|(key, value)| {
        let (rem_key, rem_value) = btree.remove(key).expect("the removed entry must come back out");

        assert_eq!(*key, rem_key);
        assert_eq!(*value, rem_value);

        assert!(btree.get(key).is_none(), "still found after removal");
    });
}

#[test]
fn get_from_sibling_works_l() {
    // after the six inserts the root holds 6 with leaf children {1, 4} and
    // {8, 11, 13}; removing 1 underflows the left leaf, whose right sibling
    // has an entry to spare, so the separator 6 drops left and 8 (with its
    // value 10) is promoted into the root
    let mut btr = Btree::new();
    [(1, 8), (4, 9), (6, 2), (8, 10), (11, 11), (13, 3)].into_iter().for_each(|(k, v)| {
        btr.insert(k, v);
    });
    btr.remove(&1);
    assert_eq!(btr.root_keys(), vec![8]);
    assert_eq!(btr.get(&8), Some(&10));
    assert_eq!(btr.child_keys(0).unwrap(), vec![4, 6]);
    assert_eq!(btr.child_keys(1).unwrap(), vec![11, 13]);
    assert!(btr.check_invariants());
}

#[test]
fn get_from_sibling_r() {
    // with 5 added, the left leaf {1, 4, 5} has an entry to spare; removing
    // 11 and 13 underflows the right leaf, which has no right sibling, so
    // the separator 6 drops right and 5 is promoted into the root
    let mut btr = Btree::new();
    [(1, 8), (4, 9), (6, 2), (8, 10), (11, 11), (13, 3)].into_iter().for_each(|(k, v)| {
        btr.insert(k, v);
    });
    btr.insert(5, 21);
    btr.remove(&11);
    btr.remove(&13);
    assert_eq!(btr.root_keys(), vec![5]);
    assert_eq!(btr.get(&5), Some(&21));
    assert_eq!(btr.child_keys(0).unwrap(), vec![1, 4]);
    assert_eq!(btr.child_keys(1).unwrap(), vec![6, 8]);
    assert!(btr.check_invariants());
}
